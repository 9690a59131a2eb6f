use foxguard::compliance::{
    annotate_cnsa2_deadlines, cnsa2_deadline_for_rule, compute_pq_migration_level,
};
use foxguard::finding::{Finding, Language, Place, Severity};
use foxguard::rules::manifest::{
    extract_pip_package_name, CargoLockPqCrypto, RequirementsTxtPqCrypto, CONFIDENCE_90,
};
use foxguard::rules::pq::{algorithm_by_canonical, is_comment_line, pq_ready_findings, scan};

fn canonicals(source: &str) -> Vec<String> {
    let mut v: Vec<String> = scan(source, Language::Rust)
        .into_iter()
        .map(|m| m.algo.canonical.to_string())
        .collect();
    v.sort_unstable();
    v.dedup();
    v
}

fn holds(names: &[String], name: &str) -> bool {
    names.iter().any(|n| n == name)
}

#[test]
fn recognizes_bare_oqs_without_matching_unrelated_identifiers() {
    let source = "use oqs::kem::Kem;\nOQS_KEM_new(OQS_KEM_alg_bike_l1);\nliboqs_version();\nfooqs_value(); oqsish();\n";
    let matches = scan(source, Language::Rust);
    let found: Vec<(&str, &str)> = matches
        .iter()
        .map(|m| (&source[m.start_byte..m.end_byte], &*m.algo.canonical))
        .collect();
    assert_eq!(found, vec![("oqs", "liboqs"), ("OQS", "liboqs"), ("liboqs", "liboqs")]);
}

#[test]
fn separated_hybrids_claim_every_occurrence_before_base_algorithms() {
    let source = "x25519_ml_kem_768 x25519-ml-kem-768 x25519_mlkem_768\nx25519_kyber_768 x25519-kyber-768\n";
    let matches = scan(source, Language::Rust);
    let found: Vec<&str> = matches.iter().map(|m| &*m.algo.canonical).collect();
    assert_eq!(found, vec!["X25519MLKEM768", "X25519Kyber768"]);
}

#[test]
fn independent_base_algorithm_after_hybrid_keeps_its_own_byte_range() {
    let source = "let café = \"x25519_ml_kem_768 ml_kem\";\n";
    let matches = scan(source, Language::Rust);
    let found: Vec<(usize, usize, &str)> = matches
        .iter()
        .map(|m| (m.start_byte, m.end_byte, &*m.algo.canonical))
        .collect();
    assert_eq!(
        found,
        vec![
            (
                source.find("x25519").unwrap(),
                source.find("x25519").unwrap() + "x25519_ml_kem_768".len(),
                "X25519MLKEM768"
            ),
            (
                source.rfind("ml_kem").unwrap(),
                source.rfind("ml_kem").unwrap() + "ml_kem".len(),
                "ML-KEM"
            ),
        ]
    );
}

#[test]
fn rust_attributes_are_inventory_but_hash_comment_prose_is_not() {
    let source = "#[cfg(feature = \"ml-kem\")]\n#![cfg_attr(feature = \"slh-dsa\", allow(dead_code))]\n// ML-KEM in prose\n/* ML-DSA in prose */\n";
    let findings = pq_ready_findings("rs/pq-ready-crypto", source, Language::Rust);
    assert_eq!(
        findings
            .iter()
            .map(|f| (f.line, f.crypto_algorithm.as_deref()))
            .collect::<Vec<_>>(),
        vec![(1, Some("ML-KEM")), (2, Some("SLH-DSA"))]
    );
    let comments = "#if you want ML-KEM, import ml_kem\n#[cfg(feature = \"ml-kem\")]\n";
    assert!(scan(comments, Language::Python).is_empty());
    assert!(scan(comments, Language::Bash).is_empty());
}

#[test]
fn detects_ml_kem_spellings() {
    assert!(holds(&canonicals("use ml_kem::MlKem768;"), "ML-KEM"));
    assert!(holds(&canonicals("from kyber_py.ml_kem import ML_KEM_768"), "ML-KEM"));
    assert!(holds(&canonicals("import \"crypto/mlkem\""), "ML-KEM"));
    assert!(holds(&canonicals("let k = crystals_kyber::keypair();"), "ML-KEM"));
}

#[test]
fn detects_signature_families() {
    assert!(holds(&canonicals("dilithium.Sign(msg)"), "ML-DSA"));
    assert!(holds(&canonicals("ml_dsa_65_keypair()"), "ML-DSA"));
    assert!(holds(&canonicals("sphincsplus.sign()"), "SLH-DSA"));
    assert!(holds(&canonicals("slh_dsa_sha2_128s()"), "SLH-DSA"));
    assert!(holds(&canonicals("falcon512_keygen()"), "FN-DSA"));
    assert!(holds(&canonicals("fn_dsa_sign()"), "FN-DSA"));
}

#[test]
fn detects_hybrids_without_double_counting_base() {
    let c = canonicals("ssl_ecdh_curve X25519MLKEM768;");
    assert!(holds(&c, "X25519MLKEM768"));
    assert!(!holds(&c, "ML-KEM"));
}

#[test]
fn detects_library_markers() {
    assert!(holds(&canonicals("#include <oqs/oqs.h>\nliboqs_version();"), "liboqs"));
    assert!(holds(&canonicals("import pqcrystals"), "liboqs"));
}

#[test]
fn ignores_classical_and_unrelated_tokens() {
    assert!(canonicals("rsa.generate_private_key()").is_empty());
    assert!(canonicals("let falcon = SpaceX::launch();").is_empty());
    assert!(canonicals("xmlkemper = parse_xml();").is_empty());
}

#[test]
fn pq_ready_findings_are_informational() {
    let findings =
        pq_ready_findings("py/pq-ready-crypto", "from kyber_py import ml_kem\n", Language::Python);
    assert_eq!(findings.len(), 1);
    let f = &findings[0];
    assert!(f.is_pq_ready());
    assert_eq!(f.severity, Severity::Low);
    assert_eq!(f.crypto_algorithm.as_deref(), Some("ML-KEM"));
    assert!(f.cnsa2_deadline.is_none());
}

#[test]
fn algorithms_are_found_by_name() {
    assert!(algorithm_by_canonical("ML-KEM").is_some());
    assert!(algorithm_by_canonical("ml-kem").is_none());
}

#[test]
fn comment_lines_depend_on_the_language() {
    assert!(is_comment_line("# note", Language::Python));
    assert!(!is_comment_line("#[cfg(test)]", Language::Rust));
    assert!(is_comment_line("// note", Language::Rust));
}

#[test]
fn extract_pip_name_simple() {
    assert_eq!(extract_pip_package_name("requests"), "requests");
}

#[test]
fn extract_pip_name_with_version() {
    assert_eq!(extract_pip_package_name("requests>=2.28"), "requests");
    assert_eq!(extract_pip_package_name("rsa==4.9"), "rsa");
}

#[test]
fn extract_pip_name_with_extras() {
    assert_eq!(extract_pip_package_name("fabric[ssh]>=3.0"), "fabric");
}

#[test]
fn extract_pip_name_with_dots_and_underscores() {
    assert_eq!(extract_pip_package_name("my.package_name>=1.0"), "my.package_name");
}

const LOCK: &str = "version = 4

[[package]]
name = \"app\"
version = \"0.1.0\"
dependencies = [\"middle 1.0.0\", \"serde\"]

[[package]]
name = \"middle\"
version = \"1.0.0\"
dependencies = [\"rsa\"]

[[package]]
name = \"rsa\"
version = \"0.9.6\"

[[package]]
name = \"serde\"
version = \"1.0.0\"
";

#[test]
fn lock_files_flag_what_reaches_vulnerable_crates() {
    let findings = CargoLockPqCrypto.check(LOCK);
    let named: Vec<(Option<&str>, usize)> =
        findings.iter().map(|f| (f.dep_name.as_deref(), f.line)).collect();
    assert_eq!(named, vec![(Some("app"), 4), (Some("middle"), 9)]);
    assert_eq!(
        findings[0].description,
        "Crate `app` transitively depends on `rsa` (PQ-vulnerable RSA)"
    );
    assert_eq!(findings[0].crypto_algorithm.as_deref(), Some("RSA"));
    assert_eq!(findings[0].confidence, CONFIDENCE_90);
    assert_eq!(f32::from_bits(CONFIDENCE_90), 0.9);
    assert_eq!(findings[0].tags, vec!["PQ".to_string()]);
    assert!(CargoLockPqCrypto.check("no = [lock").is_empty());
    assert!(CargoLockPqCrypto.check("version = 4").is_empty());
}

#[test]
fn requirements_flag_vulnerable_packages() {
    let source = "# crypto\r\nrequests>=2\r\nRSA==4.9\r\n-r other.txt\r\npycryptodome\n";
    let findings = RequirementsTxtPqCrypto.check(source);
    let lines: Vec<usize> = findings.iter().map(|f| f.line).collect();
    assert_eq!(lines, vec![3, 5]);
    assert_eq!(findings[0].rule_id, "manifest/pip-pq-vulnerable-dep");
}

#[test]
fn manifest_rules_apply_to_their_files() {
    assert!(CargoLockPqCrypto.applies_to_path("a/Cargo.lock"));
    assert!(!CargoLockPqCrypto.applies_to_path("a/Cargo.toml"));
    assert!(RequirementsTxtPqCrypto.applies_to_path("requirements.txt"));
    assert!(!RequirementsTxtPqCrypto.applies_to_path("requirements.txt.bak"));
    assert_eq!(CargoLockPqCrypto.severity(), Severity::High);
    assert_eq!(RequirementsTxtPqCrypto.cwe(), Some("CWE-327"));
    assert_eq!(CargoLockPqCrypto.cnsa2_deadline(), Some("2033"));
    assert_eq!(CargoLockPqCrypto.language(), Language::Manifest);
}

fn plain(rule_id: &str) -> Finding {
    Finding::plain(
        rule_id.to_string(),
        Severity::High,
        None,
        "d".to_string(),
        "f".to_string(),
        Place { line: 1, column: 1, end_line: 1, end_column: 1 },
        String::new(),
    )
}

#[test]
fn deadlines_follow_the_rule() {
    assert_eq!(cnsa2_deadline_for_rule("py/pq-vulnerable-crypto"), Some("2027-01"));
    assert_eq!(cnsa2_deadline_for_rule("py/hardcoded-crypto-algorithm"), Some("2035"));
    assert_eq!(cnsa2_deadline_for_rule("py/no-eval"), None);
    let mut findings = vec![plain("py/pq-vulnerable-crypto"), plain("py/no-eval")];
    annotate_cnsa2_deadlines(&mut findings);
    assert_eq!(findings[0].cnsa2_deadline.as_deref(), Some("2027-01"));
    assert_eq!(findings[1].cnsa2_deadline, None);
}

#[test]
fn migration_levels_follow_the_findings() {
    let clean = compute_pq_migration_level(&[plain("py/no-eval")]).expect("a level");
    assert_eq!((clean.level, clean.label), (5, "PQ-Enabled"));
    assert_eq!((clean.pq_finding_count, clean.agility_finding_count), (0, 0));
    assert_eq!(compute_pq_migration_level(&[]).map(|l| l.level), Some(5));
    let level = |n: usize, agility: usize| {
        let mut findings: Vec<Finding> =
            (0..n).map(|_| plain("py/pq-vulnerable-crypto")).collect();
        findings.extend((0..agility).map(|_| plain("py/hardcoded-crypto-algorithm")));
        annotate_cnsa2_deadlines(&mut findings);
        let l = compute_pq_migration_level(&findings).expect("a level");
        (l.level, l.label, l.pq_finding_count, l.agility_finding_count)
    };
    assert_eq!(level(0, 1), (4, "PQ-Hardened", 0, 1));
    assert_eq!(level(5, 0), (3, "PQ-Ready", 5, 0));
    assert_eq!(level(6, 2), (2, "PQ-Aware", 6, 2));
}
