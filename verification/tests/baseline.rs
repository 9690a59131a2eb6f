use foxguard::baseline::{
    append_finding_to_baseline, append_findings_to_baseline_at_root,
    compare_with_baseline_at_root, fingerprint_finding, fingerprint_finding_with_file,
    suppress_with_baseline, suppress_with_baseline_at_root, BaselineEntry, BaselineFile,
};
use foxguard::finding::{Finding, Place, Severity};
use std::path::Path;

fn finding() -> Finding {
    Finding::plain(
        "py/no-command-injection".to_string(),
        Severity::High,
        Some("CWE-78".to_string()),
        "tainted input reaches command sink".to_string(),
        "src/app.py".to_string(),
        Place { line: 10, column: 5, end_line: 10, end_column: 20 },
        "os.system(cmd)".to_string(),
    )
}

fn at(file: &str) -> Finding {
    let mut f = finding();
    f.file = file.to_string();
    f
}

/// The keys of files under a root: their paths as seen from it.
fn keys(root: &str, files: &[&str]) -> Vec<String> {
    files
        .iter()
        .map(|file| file.strip_prefix(&format!("{root}/")).unwrap_or(file).to_string())
        .collect()
}

#[test]
fn baseline_delta_does_not_suppress_identical_findings_in_other_files() {
    let root = "/tmp/project";
    let a = format!("{root}/a.py");
    let b = format!("{root}/b.py");
    let removed = format!("{root}/removed.py");
    let baseline =
        BaselineFile::from_findings_at_root(&[at(&a), at(&removed)], &keys(root, &[&a, &removed]));
    let findings = vec![at(&a), at(&b)];
    let file_keys = keys(root, &[&a, &b]);
    let entry_keys: Vec<String> = baseline.entries.iter().map(|entry| entry.file.clone()).collect();

    let comparison = compare_with_baseline_at_root(&findings, &file_keys, &baseline, &entry_keys);
    assert_eq!(comparison.recurring, vec![0]);
    assert_eq!(comparison.introduced, vec![1]);
    assert_eq!(
        comparison.resolved.iter().map(|entry| entry.file.as_str()).collect::<Vec<_>>(),
        vec!["removed.py"]
    );
    let remaining =
        suppress_with_baseline_at_root(findings, &file_keys, Some(&baseline), &entry_keys);
    assert_eq!(
        remaining
            .iter()
            .map(|finding| Path::new(&finding.file).file_name().unwrap())
            .collect::<Vec<_>>(),
        vec!["b.py"]
    );
}

#[test]
fn baseline_delta_matches_legacy_path_aliases_but_not_changed_locations() {
    let root = "/tmp/project";
    let file = format!("{root}/app.py");
    let file_keys = keys(root, &[&file]);
    let mut current = at(&file);
    let baseline = BaselineFile {
        version: 1,
        entries: vec![
            BaselineEntry::from_finding(&current),
            BaselineEntry::from_finding_at_root(&current, &file_keys[0]),
        ],
    };
    let entry_keys = vec![file_keys[0].clone(), file_keys[0].clone()];
    let unchanged = compare_with_baseline_at_root(
        &vec![current.clone()],
        &file_keys,
        &baseline,
        &entry_keys,
    );
    assert_eq!(unchanged.recurring, vec![0]);
    assert!(unchanged.resolved.is_empty());

    current.line += 1;
    current.end_line += 1;
    let moved = compare_with_baseline_at_root(&vec![current], &file_keys, &baseline, &entry_keys);
    assert_eq!(moved.introduced, vec![0]);
    assert!(moved.recurring.is_empty());
    assert_eq!(moved.resolved.len(), 2);
}

#[test]
fn append_finding_to_baseline_adds_new_entry_once() {
    let finding = finding();

    let (baseline, added) = append_finding_to_baseline(None, &finding);
    assert!(added);
    let (baseline, added) = append_finding_to_baseline(Some(baseline), &finding);
    assert!(!added);
    assert_eq!(baseline.version, 1);
    assert_eq!(baseline.entries.len(), 1);
}

#[test]
fn fingerprints_are_digests_of_the_identity() {
    let mut f = finding();
    f.rule_id = "r".to_string();
    f.file = "f".to_string();
    f.description = "d".to_string();
    f.line = 1;
    f.column = 2;
    f.end_line = 3;
    f.end_column = 4;
    let identity = b"r\0f\x001\x002\x003\x004\0d";
    let digest = <sha2::Sha256 as sha2::Digest>::digest(identity);
    let expected: String = digest.iter().map(|b| format!("{b:02x}")).collect();
    assert_eq!(fingerprint_finding(&f), expected);
    let mut other = f.clone();
    other.severity = Severity::Low;
    other.snippet = "elsewhere".to_string();
    assert_eq!(fingerprint_finding(&other), expected);
    other.end_column += 1;
    assert_ne!(fingerprint_finding(&other), expected);
    assert_eq!(expected.len(), 64);
    assert_ne!(fingerprint_finding_with_file(&f, "g"), expected);
}

#[test]
fn batches_add_each_finding_once() {
    let findings = [at("a.py"), at("b.py"), at("a.py")];
    let file_keys = keys("", &["a.py", "b.py", "a.py"]);
    let (baseline, added) = append_findings_to_baseline_at_root(None, &findings, &file_keys);
    assert_eq!(added, 2);
    assert_eq!(baseline.entries.len(), 2);
    let (baseline, added) =
        append_findings_to_baseline_at_root(Some(baseline), &findings, &file_keys);
    assert_eq!(added, 0);
    assert_eq!(baseline.entries.len(), 2);
}

#[test]
fn a_baseline_of_all_findings_suppresses_them() {
    let findings = vec![at("a.py"), at("b.py")];
    let file_keys = keys("", &["a.py", "b.py"]);
    let baseline = BaselineFile::from_findings(&findings);
    let entry_keys: Vec<String> = baseline.entries.iter().map(|entry| entry.file.clone()).collect();
    let left = suppress_with_baseline(findings, &file_keys, Some(&baseline), &entry_keys);
    assert!(left.is_empty());
    let kept = suppress_with_baseline(vec![at("a.py")], &keys("", &["a.py"]), None, &Vec::new());
    assert_eq!(kept.len(), 1);
}
