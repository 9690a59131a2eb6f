//! Analysis results in SARIF form, as findings.

use crate::document::{json_document, parse_json, Node};
use crate::engine::artifact::{root_comparison, single_root_comparison_path};
use crate::engine::codeql::{CodeQlRule, RuleView, CODEQL_CONFIDENCE};
use crate::finding::{
    copy_opt, finding_views, lemma_finding_views_push, Finding, FindingView, Place,
};
use crate::text::{
    after_prefix, at_most, chars_of, decimal, decimal_string, lemma_texts_push, lines, lines_of,
    opt_text, owned,
    replace, replace_text, same, strip_prefix, text_le, texts, trim, trim_text,
};
use vstd::prelude::*;

verus! {

// ---------------------------------------------------------------------------
// Parts of a result
// ---------------------------------------------------------------------------

/// The node behind an optional reference.
pub open spec fn node_of(n: Option<&Node>) -> Option<Node> {
    match n {
        Some(x) => Some(*x),
        None => None,
    }
}

/// The value under a key of a node that may be missing.
pub open spec fn under(n: Option<Node>, key: Seq<char>) -> Option<Node> {
    match n {
        Some(x) => x.field(key),
        None => None,
    }
}

fn value_under<'a>(n: Option<&'a Node>, key: &str) -> (r: Option<&'a Node>)
    ensures
        node_of(r) == under(node_of(n), key@),
{
    match n {
        Some(x) => x.get(key),
        None => None,
    }
}

/// The text of a node that may be missing.
pub open spec fn text_of(n: Option<Node>) -> Option<Seq<char>> {
    match n {
        Some(x) => x.text(),
        None => None,
    }
}

/// The text of a node, where it holds more than white space.
pub open spec fn telling_text(n: Option<Node>) -> Option<Seq<char>> {
    match text_of(n) {
        Some(t) => if trim_text(t).len() == 0 {
            None
        } else {
            Some(t)
        },
        None => None,
    }
}

fn get_telling_text(n: Option<&Node>) -> (r: Option<String>)
    ensures
        opt_text(r) == telling_text(node_of(n)),
{
    match n {
        Some(x) => match x.as_str() {
            Some(t) => {
                let trimmed = trim(t);
                if chars_of(trimmed.as_str()).len() == 0 {
                    None
                } else {
                    Some(owned(t))
                }
            },
            None => None,
        },
        None => None,
    }
}

/// The number of a node that may be missing.
pub open spec fn number_of(n: Option<Node>) -> Option<usize> {
    match n {
        Some(x) => match x.number() {
            Some(v) => Some(v as usize),
            None => None,
        },
        None => None,
    }
}

fn get_number(n: Option<&Node>) -> (r: Option<usize>)
    ensures
        r == number_of(node_of(n)),
{
    match n {
        Some(x) => match x.as_u64() {
            Some(v) => Some(
                #[verifier::truncate]
                (v as usize),
            ),
            None => None,
        },
        None => None,
    }
}

/// The physical place of a result's first location.
pub open spec fn physical(result: Node) -> Option<Node> {
    match result.field_items("locations"@) {
        Some(l) => if l.len() > 0 {
            l[0].field("physicalLocation"@)
        } else {
            None
        },
        None => None,
    }
}

fn physical_location(result: &Node) -> (r: Option<&Node>)
    ensures
        node_of(r) == physical(*result),
{
    match result.get_list("locations") {
        Some(l) => if l.len() > 0 {
            l[0].get("physicalLocation")
        } else {
            None
        },
        None => None,
    }
}

/// The file that a result speaks of: a node with an address.
pub open spec fn artifact(result: Node) -> Option<Node> {
    match under(physical(result), "artifactLocation"@) {
        Some(a) => if a.field_text("uri"@) is Some {
            Some(a)
        } else {
            None
        },
        None => None,
    }
}

/// The file that a result speaks of: a node with an address.
pub fn artifact_location(result: &Node) -> (r: Option<&Node>)
    ensures
        node_of(r) == artifact(*result),
{
    match value_under(physical_location(result), "artifactLocation") {
        Some(a) => if a.get_str("uri").is_some() {
            Some(a)
        } else {
            None
        },
        None => None,
    }
}

// ---------------------------------------------------------------------------
// Where and what
// ---------------------------------------------------------------------------

/// What a result says beside its file.
#[derive(Debug)]
pub struct Spot {
    pub line: usize,
    pub column: usize,
    pub end_line: usize,
    pub end_column: Option<usize>,
    pub message: String,
    pub snippet: Option<String>,
}

#[verifier::ext_equal]
pub struct SpotView {
    pub line: usize,
    pub column: usize,
    pub end_line: usize,
    pub end_column: Option<usize>,
    pub message: Seq<char>,
    pub snippet: Option<Seq<char>>,
}

impl View for Spot {
    type V = SpotView;

    open spec fn view(&self) -> SpotView {
        SpotView {
            line: self.line,
            column: self.column,
            end_line: self.end_line,
            end_column: self.end_column,
            message: self.message@,
            snippet: opt_text(self.snippet),
        }
    }
}

/// `a`, or `b` where there is none.
pub open spec fn number_or(a: Option<usize>, b: usize) -> usize {
    match a {
        Some(n) => n,
        None => b,
    }
}

/// What a result says beside its file. Lines and columns that are not given are one, and the last
/// line is the first one; a message that is not given is the rule's.
pub open spec fn spot(result: Node, rule_message: Seq<char>) -> SpotView {
    let region = under(physical(result), "region"@);
    let line = number_or(number_of(under(region, "startLine"@)), 1);
    SpotView {
        line,
        column: number_or(number_of(under(region, "startColumn"@)), 1),
        end_line: number_or(number_of(under(region, "endLine"@)), line),
        end_column: number_of(under(region, "endColumn"@)),
        message: match telling_text(under(result.field("message"@), "text"@)) {
            Some(m) => m,
            None => rule_message,
        },
        snippet: telling_text(under(under(region, "snippet"@), "text"@)),
    }
}

/// What a result says beside its file.
pub fn read_spot(result: &Node, rule_message: &str) -> (r: Spot)
    ensures
        r@ == spot(*result, rule_message@),
{
    let region = value_under(physical_location(result), "region");
    let line: usize = match get_number(value_under(region, "startLine")) {
        Some(n) => n,
        None => 1,
    };
    let column: usize = match get_number(value_under(region, "startColumn")) {
        Some(n) => n,
        None => 1,
    };
    let end_line: usize = match get_number(value_under(region, "endLine")) {
        Some(n) => n,
        None => line,
    };
    Spot {
        line,
        column,
        end_line,
        end_column: get_number(value_under(region, "endColumn")),
        message: match get_telling_text(value_under(result.get("message"), "text")) {
            Some(m) => m,
            None => owned(rule_message),
        },
        snippet: get_telling_text(value_under(value_under(region, "snippet"), "text")),
    }
}

// ---------------------------------------------------------------------------
// Identity
// ---------------------------------------------------------------------------

/// The text entry with the least name among the first `n` entries.
pub open spec fn least_text_entry(entries: Seq<(Node, Node)>, n: int) -> Option<
    (Seq<char>, Seq<char>),
>
    decreases n,
{
    if n <= 0 {
        None
    } else {
        let before = least_text_entry(entries, n - 1);
        match (entries[n - 1].0.text(), entries[n - 1].1.text()) {
            (Some(name), Some(value)) => if before matches Some(b) && text_le(b.0, name) {
                before
            } else {
                Some((name, value))
            },
            _ => before,
        }
    }
}

/// The fingerprint that one table of a result gives: a well-known one, or the one with the least
/// name.
pub open spec fn fingerprint_in(result: Node, field: Seq<char>) -> Option<Seq<char>> {
    match result.field(field) {
        Some(Node::Table(entries)) => {
            let t = Node::Table(entries);
            let prefix = field + ":"@;
            if t.field_text("primaryLocationLineHash"@) is Some {
                Some(
                    prefix + "primaryLocationLineHash"@ + ":"@ + t.field_text(
                        "primaryLocationLineHash"@,
                    ).unwrap(),
                )
            } else if t.field_text("primaryLocationStartColumnFingerprint"@) is Some {
                Some(
                    prefix + "primaryLocationStartColumnFingerprint"@ + ":"@ + t.field_text(
                        "primaryLocationStartColumnFingerprint"@,
                    ).unwrap(),
                )
            } else if t.field_text("primaryLocationEndColumnFingerprint"@) is Some {
                Some(
                    prefix + "primaryLocationEndColumnFingerprint"@ + ":"@ + t.field_text(
                        "primaryLocationEndColumnFingerprint"@,
                    ).unwrap(),
                )
            } else {
                match least_text_entry(entries@, entries@.len() as int) {
                    Some(e) => Some(prefix + e.0 + ":"@ + e.1),
                    None => None,
                }
            }
        },
        _ => None,
    }
}

/// The fingerprint of a result.
pub open spec fn fingerprint_of(result: Node) -> Option<Seq<char>> {
    match fingerprint_in(result, "partialFingerprints"@) {
        Some(f) => Some(f),
        None => fingerprint_in(result, "fingerprints"@),
    }
}

fn fingerprint_text(field: &str, name: &str, value: &str) -> (r: String)
    ensures
        r@ == field@ + ":"@ + name@ + ":"@ + value@,
{
    let mut s: String = owned(field);
    s.append(":");
    s.append(name);
    s.append(":");
    s.append(value);
    s
}

fn find_fingerprint(result: &Node, field: &str) -> (r: Option<String>)
    ensures
        opt_text(r) == fingerprint_in(*result, field@),
{
    let table = match result.get(field) {
        Some(t) => t,
        None => {
            return None;
        },
    };
    let entries = match table {
        Node::Table(entries) => entries,
        _ => {
            return None;
        },
    };
    if let Some(v) = table.get_str("primaryLocationLineHash") {
        return Some(fingerprint_text(field, "primaryLocationLineHash", v));
    }
    if let Some(v) = table.get_str("primaryLocationStartColumnFingerprint") {
        return Some(fingerprint_text(field, "primaryLocationStartColumnFingerprint", v));
    }
    if let Some(v) = table.get_str("primaryLocationEndColumnFingerprint") {
        return Some(fingerprint_text(field, "primaryLocationEndColumnFingerprint", v));
    }
    let mut best: Option<(String, String)> = None;
    let mut i: usize = 0;
    while i < entries.len()
        invariant
            i <= entries@.len(),
            match best {
                Some(b) => least_text_entry(entries@, i as int) == Some((b.0@, b.1@)),
                None => least_text_entry(entries@, i as int) is None,
            },
        decreases entries@.len() - i,
    {
        match (entries[i].0.as_str(), entries[i].1.as_str()) {
            (Some(name), Some(value)) => {
                let keep = match &best {
                    Some(b) => at_most(b.0.as_str(), name),
                    None => false,
                };
                if !keep {
                    best = Some((owned(name), owned(value)));
                }
            },
            _ => {},
        }
        i = i + 1;
    }
    match best {
        Some(b) => Some(fingerprint_text(field, b.0.as_str(), b.1.as_str())),
        None => None,
    }
}

/// The fingerprint of a result.
pub fn sarif_fingerprint(result: &Node) -> (r: Option<String>)
    ensures
        opt_text(r) == fingerprint_of(*result),
{
    match find_fingerprint(result, "partialFingerprints") {
        Some(f) => Some(f),
        None => find_fingerprint(result, "fingerprints"),
    }
}

/// What tells a result from others of its rule and file, and whether a fingerprint does.
pub open spec fn identity_of(
    result: Node,
    snippet: Option<Seq<char>>,
    message: Seq<char>,
    place: Place,
) -> (Seq<char>, bool) {
    match fingerprint_of(result) {
        Some(f) => ("fingerprint:"@ + f, true),
        None => match snippet {
            Some(s) => ("snippet:"@ + trim_text(s), false),
            None => (
                "location:"@ + decimal(place.line as nat) + ":"@ + decimal(place.column as nat)
                    + ":"@ + decimal(place.end_line as nat) + ":"@ + decimal(
                    place.end_column as nat,
                ) + ":"@ + trim_text(message),
                false,
            ),
        },
    }
}

/// What tells a result from others of its rule and file, and whether a fingerprint does.
pub fn sarif_finding_identity(
    result: &Node,
    snippet: &Option<String>,
    message: &str,
    place: Place,
) -> (r: (String, bool))
    ensures
        (r.0@, r.1) == identity_of(*result, opt_text(*snippet), message@, place),
{
    if let Some(f) = sarif_fingerprint(result) {
        let mut s: String = owned("fingerprint:");
        s.append(f.as_str());
        return (s, true);
    }
    if let Some(text) = snippet {
        let mut s: String = owned("snippet:");
        let t = trim(text.as_str());
        s.append(t.as_str());
        return (s, false);
    }
    let mut s: String = owned("location:");
    s.append(decimal_string(place.line as u64).as_str());
    s.append(":");
    s.append(decimal_string(place.column as u64).as_str());
    s.append(":");
    s.append(decimal_string(place.end_line as u64).as_str());
    s.append(":");
    s.append(decimal_string(place.end_column as u64).as_str());
    s.append(":");
    let t = trim(message);
    s.append(t.as_str());
    (s, false)
}

// ---------------------------------------------------------------------------
// Findings
// ---------------------------------------------------------------------------

/// A finding, with what it is compared by.
#[derive(Debug)]
pub struct CodeQlDiffFinding {
    pub finding: Finding,
    pub comparison_path: String,
    pub identity: String,
    pub has_fingerprint: bool,
}

#[verifier::ext_equal]
pub struct DiffFindingView {
    pub finding: FindingView,
    pub comparison_path: Seq<char>,
    pub identity: Seq<char>,
    pub has_fingerprint: bool,
}

impl View for CodeQlDiffFinding {
    type V = DiffFindingView;

    open spec fn view(&self) -> DiffFindingView {
        DiffFindingView {
            finding: self.finding@,
            comparison_path: self.comparison_path@,
            identity: self.identity@,
            has_fingerprint: self.has_fingerprint,
        }
    }
}

pub open spec fn diff_views(v: Seq<CodeQlDiffFinding>) -> Seq<DiffFindingView> {
    v.map_values(|f: CodeQlDiffFinding| f@)
}

pub proof fn lemma_diff_views_push(v: Seq<CodeQlDiffFinding>, f: CodeQlDiffFinding)
    ensures
        diff_views(v.push(f)) == diff_views(v).push(f@),
{
    assert(diff_views(v.push(f)) =~= diff_views(v).push(f@));
}

/// The last column: the one given, or behind the snippet, which counts as one character at least.
pub open spec fn last_column(given: Option<usize>, column: usize, snippet: Seq<char>) -> usize {
    let width = if snippet.len() == 0 {
        1
    } else {
        snippet.len() as int
    };
    match given {
        Some(c) => c,
        None => if column + width > usize::MAX {
            usize::MAX
        } else {
            (column + width) as usize
        },
    }
}

/// The finding for a result in the given file, with the snippet given or, where none is, the
/// result's own.
pub open spec fn finding_for(
    rule: RuleView,
    result: Node,
    file: Seq<char>,
    comparison_path: Seq<char>,
    live: Option<Seq<char>>,
) -> DiffFindingView {
    let s = spot(result, rule.message);
    let snippet = match live {
        Some(t) => t,
        None => match s.snippet {
            Some(t) => t,
            None => Seq::empty(),
        },
    };
    let place = Place {
        line: s.line,
        column: s.column,
        end_line: s.end_line,
        end_column: last_column(s.end_column, s.column, snippet),
    };
    let identity = identity_of(result, s.snippet, s.message, place);
    DiffFindingView {
        finding: FindingView {
            confidence: CODEQL_CONFIDENCE,
            tags: seq!["codeql"@],
            ..FindingView::plain(
                rule.id,
                rule.severity,
                rule.cwe,
                s.message,
                file,
                place,
                snippet,
            )
        },
        comparison_path,
        identity: identity.0,
        has_fingerprint: identity.1,
    }
}

/// The finding for a result in the given file, with the snippet given or, where none is, the
/// result's own.
pub fn normalized_finding(
    rule: &CodeQlRule,
    result: &Node,
    file: String,
    comparison_path: String,
    live: Option<String>,
) -> (r: CodeQlDiffFinding)
    ensures
        r@ == finding_for(rule@, *result, file@, comparison_path@, opt_text(live)),
{
    let spot = read_spot(result, rule.message.as_str());
    let snippet: String = match live {
        Some(t) => t,
        None => match &spot.snippet {
            Some(t) => t.clone(),
            None => {
                let e: String = String::new();
                assert(e@ =~= Seq::<char>::empty());
                e
            },
        },
    };
    let end_column: usize = match spot.end_column {
        Some(c) => c,
        None => {
            let n: usize = chars_of(snippet.as_str()).len();
            let width: usize = if n == 0 {
                1
            } else {
                n
            };
            if width > usize::MAX - spot.column {
                usize::MAX
            } else {
                spot.column + width
            }
        },
    };
    let place = Place {
        line: spot.line,
        column: spot.column,
        end_line: spot.end_line,
        end_column,
    };
    let (identity, has_fingerprint) = sarif_finding_identity(
        result,
        &spot.snippet,
        spot.message.as_str(),
        place,
    );
    let mut finding = Finding::plain(
        rule.id.clone(),
        rule.severity,
        copy_opt(&rule.cwe),
        spot.message,
        file,
        place,
        snippet,
    );
    finding.confidence = CODEQL_CONFIDENCE;
    let mut tags: Vec<String> = Vec::new();
    tags.push(owned("codeql"));
    assert(texts(tags@) =~= seq!["codeql"@]);
    finding.tags = tags;
    CodeQlDiffFinding { finding, comparison_path, identity, has_fingerprint }
}

// ---------------------------------------------------------------------------
// Results of a scan of the working tree
// ---------------------------------------------------------------------------

/// The path that an address stands for in the working tree.
pub open spec fn live_path(uri: Seq<char>) -> Seq<char> {
    replace_text(
        match after_prefix(uri, "file://"@) {
            Some(rest) => rest,
            None => uri,
        },
        "%20"@,
        " "@,
    )
}

/// The path that an address stands for in the working tree.
pub fn normalize_sarif_uri(uri: &str) -> (r: String)
    ensures
        r@ == live_path(uri@),
{
    proof {
        reveal_strlit("%20");
    }
    match strip_prefix(uri, "file://") {
        Some(rest) => replace(rest.as_str(), "%20", " "),
        None => replace(uri, "%20", " "),
    }
}

/// A file of the working tree, and its text where it could be read.
#[derive(Debug)]
pub struct SourceFile {
    pub path: String,
    pub text: Option<String>,
}

/// The text of the first of the files from `i` on that has the path.
pub open spec fn source_text(files: Seq<SourceFile>, path: Seq<char>, i: int) -> Option<Seq<char>>
    decreases files.len() - i,
{
    if i < 0 || i >= files.len() {
        None
    } else if files[i].path@ == path {
        opt_text(files[i].text)
    } else {
        source_text(files, path, i + 1)
    }
}

/// The given line of a text, or nothing; lines count from one.
pub open spec fn line_of(source: Option<Seq<char>>, line: usize) -> Seq<char> {
    match source {
        None => Seq::empty(),
        Some(text) => {
            let i = if line == 0 {
                0
            } else {
                line - 1
            };
            if i < lines_of(text).len() {
                lines_of(text)[i]
            } else {
                Seq::empty()
            }
        },
    }
}

/// The given line of a file, or nothing.
pub fn snippet_for_path(files: &Vec<SourceFile>, path: &str, line: usize) -> (r: String)
    ensures
        r@ == line_of(source_text(files@, path@, 0), line),
{
    let empty: String = String::new();
    assert(empty@ =~= Seq::<char>::empty());
    let mut i: usize = 0;
    while i < files.len()
        invariant
            i <= files@.len(),
            source_text(files@, path@, 0) == source_text(files@, path@, i as int),
            empty@ == Seq::<char>::empty(),
        decreases files@.len() - i,
    {
        if same(files[i].path.as_str(), path) {
            match &files[i].text {
                None => {
                    return empty;
                },
                Some(text) => {
                    let all = lines(text.as_str());
                    assert(texts(all@).len() == all@.len());
                    let at: usize = if line == 0 {
                        0
                    } else {
                        line - 1
                    };
                    if at < all.len() {
                        return all[at].clone();
                    }
                    return empty;
                },
            }
        }
        i = i + 1;
    }
    empty
}

/// The finding for a result of a scan of the working tree, where the result names a file.
pub open spec fn live_finding(rule: RuleView, result: Node, files: Seq<SourceFile>) -> Option<
    FindingView,
> {
    match artifact(result) {
        None => None,
        Some(a) => {
            let file = live_path(a.field_text("uri"@).unwrap());
            let snippet = line_of(
                source_text(files, file, 0),
                spot(result, rule.message).line,
            );
            Some(finding_for(rule, result, file, root_comparison(file), Some(snippet)).finding)
        },
    }
}

fn find_live(rule: &CodeQlRule, result: &Node, files: &Vec<SourceFile>) -> (r: Option<Finding>)
    ensures
        match live_finding(rule@, *result, files@) {
            Some(v) => r matches Some(f) && f@ == v,
            None => r is None,
        },
{
    match artifact_location(result) {
        None => None,
        Some(a) => match a.get_str("uri") {
            None => None,
            Some(uri) => {
                let file = normalize_sarif_uri(uri);
                let spot = read_spot(result, rule.message.as_str());
                let snippet = snippet_for_path(files, file.as_str(), spot.line);
                let comparison = single_root_comparison_path(file.as_str());
                Some(normalized_finding(rule, result, file, comparison, Some(snippet)).finding)
            },
        },
    }
}

/// The findings for the first `n` results.
pub open spec fn live_findings(
    rule: RuleView,
    results: Seq<Node>,
    n: int,
    files: Seq<SourceFile>,
) -> Seq<FindingView>
    decreases n,
{
    if n <= 0 {
        Seq::empty()
    } else {
        let before = live_findings(rule, results, n - 1, files);
        match live_finding(rule, results[n - 1], files) {
            Some(f) => before.push(f),
            None => before,
        }
    }
}

/// The results of the first `n` runs, one run after the other.
pub open spec fn all_results(runs: Seq<Node>, n: int) -> Seq<Node>
    decreases n,
{
    if n <= 0 {
        Seq::empty()
    } else {
        match runs[n - 1].field_items("results"@) {
            Some(results) => all_results(runs, n - 1) + results,
            None => all_results(runs, n - 1),
        }
    }
}

/// All results of a document.
pub open spec fn document_results(document: Result<Node, String>) -> Seq<Node> {
    match document {
        Err(_) => Seq::empty(),
        Ok(root) => match root.field_items("runs"@) {
            None => Seq::empty(),
            Some(runs) => all_results(runs, runs.len() as int),
        },
    }
}

/// The findings of a document of results, with their lines from the given files; what is no
/// document, or names no file, has none.
pub open spec fn live_document_findings(
    rule: RuleView,
    document: Result<Node, String>,
    files: Seq<SourceFile>,
) -> Seq<FindingView> {
    let results = document_results(document);
    live_findings(rule, results, results.len() as int, files)
}

/// The nodes behind a list of references.
pub open spec fn nodes_of(v: Seq<&Node>) -> Seq<Node> {
    v.map_values(|n: &Node| *n)
}

fn collect_results(document: &Result<Node, String>) -> (r: Vec<&Node>)
    ensures
        nodes_of(r@) == document_results(*document),
{
    let mut r: Vec<&Node> = Vec::new();
    assert(nodes_of(r@) =~= Seq::<Node>::empty());
    let root = match document {
        Ok(root) => root,
        Err(_) => {
            return r;
        },
    };
    let runs = match root.get_list("runs") {
        Some(runs) => runs,
        None => {
            return r;
        },
    };
    let mut i: usize = 0;
    while i < runs.len()
        invariant
            i <= runs@.len(),
            nodes_of(r@) == all_results(runs@, i as int),
        decreases runs@.len() - i,
    {
        if let Some(results) = runs[i].get_list("results") {
            let ghost before = nodes_of(r@);
            let mut j: usize = 0;
            assert(before + results@.take(0) =~= before);
            while j < results.len()
                invariant
                    j <= results@.len(),
                    nodes_of(r@) == before + results@.take(j as int),
                decreases results@.len() - j,
            {
                let x = &results[j];
                proof {
                    assert(nodes_of(r@.push(x)) =~= nodes_of(r@).push(*x));
                    assert(results@.take(j + 1) =~= results@.take(j as int).push(*x));
                    assert(before + results@.take(j + 1) =~= (before + results@.take(
                        j as int,
                    )).push(*x));
                }
                r.push(x);
                j = j + 1;
            }
            assert(results@.take(results@.len() as int) =~= results@);
        }
        i = i + 1;
    }
    r
}

/// The findings of a document of results, with their lines from the given files; what is no
/// document, or names no file, has none.
pub fn findings_of_document(
    rule: &CodeQlRule,
    document: &Result<Node, String>,
    files: &Vec<SourceFile>,
) -> (r: Vec<Finding>)
    ensures
        finding_views(r@) == live_document_findings(rule@, *document, files@),
{
    let results = collect_results(document);
    let ghost all = document_results(*document);
    let mut r: Vec<Finding> = Vec::new();
    assert(finding_views(r@) =~= Seq::<FindingView>::empty());
    let mut i: usize = 0;
    while i < results.len()
        invariant
            i <= results@.len(),
            all == nodes_of(results@),
            finding_views(r@) == live_findings(rule@, all, i as int, files@),
        decreases results@.len() - i,
    {
        assert(all[i as int] == *results@[i as int]);
        if let Some(f) = find_live(rule, results[i], files) {
            proof {
                lemma_finding_views_push(r@, f);
            }
            r.push(f);
        }
        i = i + 1;
    }
    assert(all.len() == results@.len());
    r
}

/// The findings in the text of a document of results, with their lines from the given files.
pub fn parse_sarif_findings(rule: &CodeQlRule, sarif: &str, files: &Vec<SourceFile>) -> (r: Vec<
    Finding,
>)
    ensures
        finding_views(r@) == live_document_findings(rule@, json_document(sarif@), files@),
{
    findings_of_document(rule, &parse_json(sarif), files)
}

/// The files that the first `n` results name.
pub open spec fn named_files(results: Seq<Node>, n: int) -> Seq<Seq<char>>
    decreases n,
{
    if n <= 0 {
        Seq::empty()
    } else {
        match artifact(results[n - 1]) {
            Some(a) => named_files(results, n - 1).push(
                live_path(a.field_text("uri"@).unwrap()),
            ),
            None => named_files(results, n - 1),
        }
    }
}

/// The files that a document of results names, in its order: those whose lines its findings show.
pub fn files_in_document(document: &Result<Node, String>) -> (r: Vec<String>)
    ensures
        texts(r@) == named_files(
            document_results(*document),
            document_results(*document).len() as int,
        ),
{
    let results = collect_results(document);
    let ghost all = document_results(*document);
    let mut r: Vec<String> = Vec::new();
    assert(texts(r@) =~= Seq::<Seq<char>>::empty());
    let mut i: usize = 0;
    while i < results.len()
        invariant
            i <= results@.len(),
            all == nodes_of(results@),
            texts(r@) == named_files(all, i as int),
        decreases results@.len() - i,
    {
        assert(all[i as int] == *results@[i as int]);
        if let Some(a) = artifact_location(results[i]) {
            if let Some(uri) = a.get_str("uri") {
                let path = normalize_sarif_uri(uri);
                proof {
                    lemma_texts_push(r@, path);
                }
                r.push(path);
            }
        }
        i = i + 1;
    }
    assert(all.len() == results@.len());
    r
}

/// The files that the text of a document of results names.
pub fn sarif_files(sarif: &str) -> (r: Vec<String>)
    ensures
        texts(r@) == named_files(
            document_results(json_document(sarif@)),
            document_results(json_document(sarif@)).len() as int,
        ),
{
    files_in_document(&parse_json(sarif))
}

} // verus!
