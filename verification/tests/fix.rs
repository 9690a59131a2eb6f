use foxguard::engine::parser::{find_node_at_byte, node_text, parse_file};
use foxguard::finding::{Finding, Language, Place, Severity};
use foxguard::fix::{
    apply_edits, diff_lines, fix_outcome, fixable_files, fixable_in, generate_fix, is_in_scope,
    try_apply_edits, CodeEdit, DiffLine, FixOutcome, Fixer,
};

fn edit(start_byte: usize, end_byte: usize, replacement: &str) -> CodeEdit {
    CodeEdit { start_byte, end_byte, replacement: replacement.to_string() }
}

#[test]
fn test_apply_edits_single() {
    let source = "hello world";
    let mut edits = vec![edit(6, 11, "rust")];
    assert_eq!(apply_edits(source, &mut edits), "hello rust");
}

#[test]
fn test_apply_edits_multiple_reverse_order() {
    let source = "aaa bbb ccc";
    let mut edits = vec![edit(0, 3, "xxx"), edit(8, 11, "zzz")];
    assert_eq!(apply_edits(source, &mut edits), "xxx bbb zzz");
}

#[test]
fn test_apply_edits_overlapping_skipped() {
    let source = "abcdefgh";
    let mut edits = vec![edit(2, 6, "XX"), edit(4, 8, "YY")];
    let result = apply_edits(source, &mut edits);
    assert_eq!(result, "abcdYY");
}

#[test]
fn repeated_edits_are_applied_once() {
    let mut edits = vec![edit(1, 1, "x"), edit(1, 1, "x"), edit(1, 1, "y")];
    assert_eq!(apply_edits("ab", &mut edits), "ayxb");
    assert_eq!(edits.len(), 3);
    let mut split = vec![edit(3, 3, "x"), edit(3, 3, "y"), edit(3, 3, "x")];
    assert_eq!(apply_edits("abcdef", &mut split), "abcyxdef");
}

#[test]
fn apart_edits_apply_in_any_order() {
    let mut forwards = vec![edit(0, 1, "A"), edit(2, 3, ""), edit(4, 4, "+")];
    let mut backwards = vec![edit(4, 4, "+"), edit(2, 3, ""), edit(0, 1, "A")];
    assert_eq!(apply_edits("abcdef", &mut forwards), "Abd+ef");
    assert_eq!(apply_edits("abcdef", &mut backwards), "Abd+ef");
    let starts: Vec<usize> = forwards.iter().map(|e| e.start_byte).collect();
    assert_eq!(starts, vec![4, 2, 0]);
}

#[test]
fn ranges_are_cut_off_at_the_end() {
    let mut edits = vec![edit(2, 99, "!"), edit(50, 60, "?")];
    assert_eq!(apply_edits("abc", &mut edits), "abc?");
    let mut one = vec![edit(2, 99, "!")];
    assert_eq!(apply_edits("abc", &mut one), "ab!");
}

#[test]
fn edits_that_divide_a_character_do_not_fit() {
    let mut edits = vec![edit(1, 2, "x")];
    assert_eq!(try_apply_edits("é", &mut edits), None);
    let mut backwards = vec![edit(2, 1, "x")];
    assert_eq!(try_apply_edits("abc", &mut backwards), None);
    let mut unfit = vec![edit(1, 2, "x")];
    assert_eq!(fix_outcome("é", &mut unfit), FixOutcome::Unfit);
    assert_eq!(fix_outcome("é", &mut Vec::new()), FixOutcome::Unchanged);
    let mut same = vec![edit(0, 1, "a")];
    assert_eq!(fix_outcome("abc", &mut same), FixOutcome::Unchanged);
    let mut other = vec![edit(0, 1, "x")];
    assert_eq!(fix_outcome("abc", &mut other), FixOutcome::Changed("xbc".to_string()));
}

#[test]
fn differences_show_changes_and_the_line_behind() {
    let d = diff_lines("a\nb\nc\nd\n", "a\nx\nc\nd\n");
    assert_eq!(
        d,
        vec![
            DiffLine::Kept { line: "a".to_string(), shown: false },
            DiffLine::Hunk { old_start: 1, old_count: 3, new_start: 1, new_count: 3 },
            DiffLine::Removed("b".to_string()),
            DiffLine::Added("x".to_string()),
            DiffLine::Kept { line: "c".to_string(), shown: true },
            DiffLine::Kept { line: "d".to_string(), shown: false },
        ]
    );
    let tail = diff_lines("a\n", "a\nb\n");
    assert_eq!(
        tail,
        vec![
            DiffLine::Kept { line: "a".to_string(), shown: false },
            DiffLine::Hunk { old_start: 1, old_count: 0, new_start: 1, new_count: 1 },
            DiffLine::Added("b".to_string()),
        ]
    );
    assert!(diff_lines("a\nb\n", "a\nb\n")
        .iter()
        .all(|l| matches!(l, DiffLine::Kept { shown: false, .. })));
}

fn finding(rule_id: &str, file: &str, sink: Option<(usize, usize)>) -> Finding {
    let mut f = Finding::plain(
        rule_id.to_string(),
        Severity::High,
        None,
        "d".to_string(),
        file.to_string(),
        Place { line: 1, column: 1, end_line: 1, end_column: 2 },
        String::new(),
    );
    f.sink_start_byte = sink.map(|s| s.0);
    f.sink_end_byte = sink.map(|s| s.1);
    f
}

#[test]
fn fixes_are_chosen_by_rule() {
    let f = finding("go/taint-sql-injection", "a.go", Some((3, 9)));
    assert_eq!(generate_fix(&f), Some((Fixer::GoSqlInjection, 3, 9)));
    assert_eq!(generate_fix(&finding("go/other", "a.go", Some((3, 9)))), None);
    assert_eq!(generate_fix(&finding("go/taint-sql-injection", "a.go", None)), None);
    let all = vec![
        finding("r", "b.go", Some((0, 1))),
        finding("r", "a.go", None),
        finding("r", "a.go", Some((0, 1))),
        finding("r", "b.go", Some((2, 3))),
    ];
    assert_eq!(fixable_files(&all), vec!["b.go".to_string(), "a.go".to_string()]);
    assert_eq!(fixable_in(&all, "b.go"), vec![0, 3]);
}

#[test]
fn fixes_stay_in_the_scanned_tree() {
    assert!(is_in_scope(false, "/repo", "/repo/src/a.py"));
    assert!(!is_in_scope(false, "/repo", "/repository/a.py"));
    assert!(!is_in_scope(false, "/repo", "/victim.py"));
    assert!(is_in_scope(true, "/repo/a.py", "/repo/a.py"));
    assert!(!is_in_scope(true, "/repo/a.py", "/repo/a.py/b"));
}

#[test]
fn parses_typescript_without_javascript_recovery_errors() {
    let source = r#"
type RequestLike = { body: { name: string } };

export function render(request: RequestLike): string {
    return request.body.name;
}
"#;
    let tree = parse_file(source, Language::TypeScript).expect("failed to parse TypeScript");
    assert!(!tree.root_node().has_error());
}

#[test]
fn parses_tsx_without_javascript_recovery_errors() {
    let source = r#"
type Props = { title: string };

export function Card({ title }: Props) {
    return <section data-kind="card">{title}</section>;
}
"#;
    let tree = parse_file(source, Language::Tsx).expect("failed to parse TSX");
    assert!(!tree.root_node().has_error());
}

#[test]
fn every_language_has_a_grammar_that_parses() {
    let texts = [
        (Language::Python, "x = 1\n"),
        (Language::Go, "package main\n"),
        (Language::Ruby, "x = 1\n"),
        (Language::Java, "class A {}\n"),
        (Language::Php, "<?php $x = 1;\n"),
        (Language::Rust, "fn main() {}\n"),
        (Language::CSharp, "class A {}\n"),
        (Language::Swift, "let x = 1\n"),
        (Language::Kotlin, "val x = 1\n"),
        (Language::C, "int x;\n"),
        (Language::Bash, "echo hi\n"),
        (Language::JavaScript, "let x = 1;\n"),
        (Language::Dockerfile, "echo hi\n"),
    ];
    for (language, text) in texts {
        let tree = parse_file(text, language).expect("a tree");
        assert!(!tree.root_node().has_error(), "{text}");
    }
}

#[test]
fn nodes_are_found_by_byte() {
    let source = "x = foo(1)\n";
    let tree = parse_file(source, Language::Python).expect("a tree");
    let (start, end) = find_node_at_byte(&tree, 5).expect("a node");
    assert_eq!(node_text(source, start, end).as_deref(), Some("foo"));
    assert_eq!(node_text(source, 5, 99), None);
    assert_eq!(node_text("é", 1, 2), None);
}
