//! What a document of analysis results comes to as findings: which results are found, where they
//! stand, and what they say.

use crate::document::Node;
use crate::engine::codeql::{RuleView, CODEQL_CONFIDENCE};
use crate::engine::sarif::{
    all_results, artifact, document_results, finding_for, fingerprint_in, fingerprint_of,
    identity_of, least_text_entry, line_of, live_document_findings, live_finding, live_findings,
    live_path, named_files, source_text, spot, SourceFile,
};
use crate::finding::{FindingView, Place};
use crate::text::{
    decimal, lines_of, lemma_text_le_total, lemma_text_le_transitive, occurs_at, opt_text,
    replace_text, text_le, trim_text,
};
use crate::text_laws::every_occurrence_is_replaced;
use vstd::prelude::*;

verus! {

// ---------------------------------------------------------------------------
// What a result says
// ---------------------------------------------------------------------------

/// The physical place that the first location of a result gives.
pub open spec fn first_place(result: Node) -> Option<Node> {
    match result.field_items("locations"@) {
        Some(locations) => if locations.len() > 0 {
            locations[0].field("physicalLocation"@)
        } else {
            None
        },
        None => None,
    }
}

/// The first location of the result names a file by the given address.
pub open spec fn located(result: Node, uri: Seq<char>) -> bool {
    first_place(result) matches Some(place) && (place.field("artifactLocation"@) matches Some(file)
        && file.field_text("uri"@) == Some(uri))
}

/// The result names no file.
pub open spec fn nowhere(result: Node) -> bool {
    forall|uri: Seq<char>| !#[trigger] located(result, uri)
}

/// The region of the result's first location.
pub open spec fn region_of(result: Node) -> Option<Node> {
    match first_place(result) {
        Some(place) => place.field("region"@),
        None => None,
    }
}

/// The number that the region gives under a key.
pub open spec fn region_number(result: Node, key: Seq<char>) -> Option<usize> {
    match region_of(result) {
        Some(region) => match region.field(key) {
            Some(value) => match value.number() {
                Some(n) => Some(n as usize),
                None => None,
            },
            None => None,
        },
        None => None,
    }
}

/// The text, where it holds more than white space.
pub open spec fn unless_blank(text: Option<Seq<char>>) -> Option<Seq<char>> {
    match text {
        Some(t) => if trim_text(t).len() > 0 {
            Some(t)
        } else {
            None
        },
        None => None,
    }
}

/// The text of the result's message.
pub open spec fn message_of(result: Node) -> Option<Seq<char>> {
    match result.field("message"@) {
        Some(message) => unless_blank(message.field_text("text"@)),
        None => None,
    }
}

/// The text of the snippet that the result itself shows.
pub open spec fn own_snippet(result: Node) -> Option<Seq<char>> {
    match region_of(result) {
        Some(region) => match region.field("snippet"@) {
            Some(snippet) => unless_blank(snippet.field_text("text"@)),
            None => None,
        },
        None => None,
    }
}

/// The snippet is the given line of the first of the files that has the path, or empty where there is
/// no such file, it could not be read, or it has no such line.
pub open spec fn is_line_of(
    snippet: Seq<char>,
    files: Seq<SourceFile>,
    path: Seq<char>,
    line: usize,
) -> bool {
    let at: int = if line == 0 {
        0
    } else {
        line - 1
    };
    &&& forall|k: int|
        0 <= k < files.len() && (#[trigger] files[k]).path@ == path && (forall|j: int|
            0 <= j < k ==> (#[trigger] files[j]).path@ != path) ==> match files[k].text {
            Some(text) => if at < lines_of(text@).len() {
                snippet == lines_of(text@)[at]
            } else {
                snippet.len() == 0
            },
            None => snippet.len() == 0,
        }
    &&& (forall|k: int| 0 <= k < files.len() ==> (#[trigger] files[k]).path@ != path)
        ==> snippet.len() == 0
}

/// The column behind a snippet, which counts as one character at least.
pub open spec fn column_behind(column: usize, snippet: Seq<char>) -> usize {
    let width: int = if snippet.len() > 0 {
        snippet.len() as int
    } else {
        1
    };
    if column + width <= usize::MAX {
        (column + width) as usize
    } else {
        usize::MAX
    }
}

/// The finding stands where the result does and says what it says.
pub open spec fn says(f: FindingView, rule: RuleView, result: Node) -> bool {
    &&& f.rule_id == rule.id
    &&& f.severity == rule.severity
    &&& f.cwe == rule.cwe
    &&& f.description == (match message_of(result) {
        Some(message) => message,
        None => rule.message,
    })
    &&& f.line == (match region_number(result, "startLine"@) {
        Some(n) => n,
        None => 1,
    })
    &&& f.column == (match region_number(result, "startColumn"@) {
        Some(n) => n,
        None => 1,
    })
    &&& f.end_line == (match region_number(result, "endLine"@) {
        Some(n) => n,
        None => f.line,
    })
    &&& f.end_column == (match region_number(result, "endColumn"@) {
        Some(n) => n,
        None => column_behind(f.column, f.snippet),
    })
    &&& f.tags == seq!["codeql"@]
    &&& f.confidence == CODEQL_CONFIDENCE
}

proof fn lemma_spot(rule: RuleView, result: Node)
    ensures
        ({
            let s = spot(result, rule.message);
            &&& s.line == (match region_number(result, "startLine"@) {
                Some(n) => n,
                None => 1,
            })
            &&& s.column == (match region_number(result, "startColumn"@) {
                Some(n) => n,
                None => 1,
            })
            &&& s.end_line == (match region_number(result, "endLine"@) {
                Some(n) => n,
                None => s.line,
            })
            &&& s.end_column == region_number(result, "endColumn"@)
            &&& s.message == (match message_of(result) {
                Some(message) => message,
                None => rule.message,
            })
            &&& s.snippet == own_snippet(result)
        }),
{
}

/// A finding for a result says what the result says, and shows the line that it is given or, where it
/// is given none, the result's own snippet.
pub proof fn findings_say_what_their_result_says(
    rule: RuleView,
    result: Node,
    file: Seq<char>,
    comparison_path: Seq<char>,
    live: Option<Seq<char>>,
)
    ensures
        ({
            let f = finding_for(rule, result, file, comparison_path, live);
            &&& says(f.finding, rule, result)
            &&& f.finding.file == file
            &&& f.comparison_path == comparison_path
            &&& f.finding.snippet == (match live {
                Some(t) => t,
                None => match own_snippet(result) {
                    Some(t) => t,
                    None => Seq::empty(),
                },
            })
        }),
{
    lemma_spot(rule, result);
}

proof fn lemma_located(result: Node)
    ensures
        artifact(result) is Some <==> !nowhere(result),
        forall|uri: Seq<char>| #[trigger]
            located(result, uri) ==> (artifact(result) matches Some(a) && a.field_text("uri"@)
                == Some(uri)),
{
    if artifact(result) is Some {
        let uri = artifact(result).unwrap().field_text("uri"@).unwrap();
        assert(located(result, uri));
    }
}

proof fn lemma_source_text(files: Seq<SourceFile>, path: Seq<char>, i: int)
    requires
        0 <= i <= files.len(),
    ensures
        forall|k: int|
            i <= k < files.len() && (#[trigger] files[k]).path@ == path && (forall|j: int|
                i <= j < k ==> (#[trigger] files[j]).path@ != path) ==> source_text(files, path, i)
                == opt_text(files[k].text),
        (forall|k: int| i <= k < files.len() ==> (#[trigger] files[k]).path@ != path)
            ==> source_text(files, path, i) is None,
    decreases files.len() - i,
{
    if i < files.len() {
        lemma_source_text(files, path, i + 1);
        if files[i].path@ == path {
            assert forall|k: int|
                i <= k < files.len() && (#[trigger] files[k]).path@ == path && (forall|j: int|
                    i <= j < k ==> (#[trigger] files[j]).path@ != path) implies source_text(
                files,
                path,
                i,
            ) == opt_text(files[k].text) by {
                if k > i {
                    assert(files[i].path@ != path);
                }
            }
        }
    }
}

proof fn lemma_live(rule: RuleView, result: Node, files: Seq<SourceFile>)
    ensures
        nowhere(result) ==> live_finding(rule, result, files) is None,
        forall|uri: Seq<char>| #[trigger]
            located(result, uri) ==> {
                &&& live_finding(rule, result, files) matches Some(f)
                &&& says(f, rule, result)
                &&& f.file == live_path(uri)
                &&& is_line_of(f.snippet, files, f.file, f.line)
            },
{
    lemma_located(result);
    assert forall|uri: Seq<char>| #[trigger] located(result, uri) implies {
        &&& live_finding(rule, result, files) matches Some(f)
        &&& says(f, rule, result)
        &&& f.file == live_path(uri)
        &&& is_line_of(f.snippet, files, f.file, f.line)
    } by {
        let file = live_path(uri);
        let snippet = line_of(source_text(files, file, 0), spot(result, rule.message).line);
        findings_say_what_their_result_says(
            rule,
            result,
            file,
            crate::engine::artifact::root_comparison(file),
            Some(snippet),
        );
        lemma_source_text(files, file, 0);
        let f = live_finding(rule, result, files).unwrap();
        assert forall|k: int|
            0 <= k < files.len() && (#[trigger] files[k]).path@ == file && (forall|j: int|
                0 <= j < k ==> (#[trigger] files[j]).path@ != file) implies match files[k].text {
            Some(text) => {
                let at: int = if f.line == 0 {
                    0
                } else {
                    f.line - 1
                };
                if at < lines_of(text@).len() {
                    f.snippet == lines_of(text@)[at]
                } else {
                    f.snippet.len() == 0
                }
            },
            None => f.snippet.len() == 0,
        } by {
            assert(source_text(files, file, 0) == opt_text(files[k].text));
        }
    }
}

/// The address of a file stands for the path in it: without a scheme for itself, with the scheme of
/// files for what follows that, where nothing in it is written as an escaped space.
pub proof fn addresses_stand_for_their_paths(path: Seq<char>)
    requires
        forall|i: int| !#[trigger] occurs_at(path, "%20"@, i),
    ensures
        !"file://"@.is_prefix_of(path) ==> live_path(path) == path,
        live_path("file://"@ + path) == path,
{
    reveal_strlit("%20");
    every_occurrence_is_replaced(path, "%20"@, " "@, path.len() as int);
    assert("file://"@.is_prefix_of("file://"@ + path));
    assert(("file://"@ + path).skip("file://"@.len() as int) =~= path);
}

/// Each escaped space of an address is one space in the path: the first is replaced, and what follows
/// it is read in the same way.
pub proof fn escaped_spaces_are_spaces(uri: Seq<char>, i: int)
    requires
        !"file://"@.is_prefix_of(uri),
        0 <= i <= uri.len(),
        occurs_at(uri, "%20"@, i),
        forall|j: int| 0 <= j < i ==> !#[trigger] occurs_at(uri, "%20"@, j),
    ensures
        live_path(uri) == uri.take(i) + " "@ + replace_text(uri.skip(i + 3), "%20"@, " "@),
{
    reveal_strlit("%20");
    every_occurrence_is_replaced(uri, "%20"@, " "@, i);
}

// ---------------------------------------------------------------------------
// Which results are found
// ---------------------------------------------------------------------------

proof fn lemma_live_prefix(rule: RuleView, a: Seq<Node>, b: Seq<Node>, n: int, files: Seq<SourceFile>)
    requires
        0 <= n <= a.len(),
        n <= b.len(),
        forall|i: int| 0 <= i < n ==> a[i] == b[i],
    ensures
        live_findings(rule, a, n, files) == live_findings(rule, b, n, files),
    decreases n,
{
    if n > 0 {
        lemma_live_prefix(rule, a, b, n - 1, files);
    }
}

proof fn lemma_live_concat(rule: RuleView, a: Seq<Node>, b: Seq<Node>, files: Seq<SourceFile>)
    ensures
        live_findings(rule, a + b, (a + b).len() as int, files) == live_findings(
            rule,
            a,
            a.len() as int,
            files,
        ) + live_findings(rule, b, b.len() as int, files),
    decreases b.len(),
{
    let whole = a + b;
    if b.len() == 0 {
        assert(whole =~= a);
        assert(live_findings(rule, b, 0, files) =~= Seq::<FindingView>::empty());
        assert(live_findings(rule, a, a.len() as int, files) + Seq::<FindingView>::empty()
            =~= live_findings(rule, a, a.len() as int, files));
    } else {
        let t = b.drop_last();
        lemma_live_concat(rule, a, t, files);
        lemma_live_prefix(rule, whole, a + t, whole.len() - 1, files);
        lemma_live_prefix(rule, b, t, b.len() - 1, files);
        assert(whole[whole.len() - 1] == b[b.len() - 1]);
        let x = live_findings(rule, a, a.len() as int, files);
        let y = live_findings(rule, t, t.len() as int, files);
        match live_finding(rule, b.last(), files) {
            Some(f) => {
                assert((x + y).push(f) =~= x + y.push(f));
            },
            None => {},
        }
    }
}

proof fn lemma_results_prefix(a: Seq<Node>, b: Seq<Node>, n: int)
    requires
        0 <= n <= a.len(),
        n <= b.len(),
        forall|i: int| 0 <= i < n ==> a[i] == b[i],
    ensures
        all_results(a, n) == all_results(b, n),
    decreases n,
{
    if n > 0 {
        lemma_results_prefix(a, b, n - 1);
    }
}

proof fn lemma_results_concat(a: Seq<Node>, b: Seq<Node>)
    ensures
        all_results(a + b, (a + b).len() as int) == all_results(a, a.len() as int) + all_results(
            b,
            b.len() as int,
        ),
    decreases b.len(),
{
    let whole = a + b;
    if b.len() == 0 {
        assert(whole =~= a);
        assert(all_results(a, a.len() as int) + all_results(b, 0) =~= all_results(
            a,
            a.len() as int,
        ));
    } else {
        let t = b.drop_last();
        lemma_results_concat(a, t);
        lemma_results_prefix(whole, a + t, whole.len() - 1);
        lemma_results_prefix(b, t, b.len() - 1);
        assert(whole[whole.len() - 1] == b[b.len() - 1]);
        match b.last().field_items("results"@) {
            Some(results) => {
                let x = all_results(a, a.len() as int);
                let y = all_results(t, t.len() as int);
                assert((x + y) + results =~= x + (y + results));
            },
            None => {},
        }
    }
}

proof fn lemma_one_run(run: Node)
    ensures
        all_results(seq![run], 1) == match run.field_items("results"@) {
            Some(results) => results,
            None => Seq::empty(),
        },
{
    let none = all_results(seq![run], 0);
    assert(none =~= Seq::<Node>::empty());
    match run.field_items("results"@) {
        Some(results) => {
            assert(none + results =~= results);
        },
        None => {},
    }
}

/// The results of a document are those of its runs, one run after the other, and each run's in its
/// order: the results of a run stand in one piece behind those of the runs before it.
pub proof fn results_are_those_of_all_runs(root: Node, runs: Seq<Node>, i: int)
    requires
        root.field_items("runs"@) == Some(runs),
        0 <= i < runs.len(),
    ensures
        document_results(Ok(root)) == all_results(runs.take(i), i) + (
        match runs[i].field_items("results"@) {
            Some(results) => results,
            None => Seq::empty(),
        }) + all_results(runs.skip(i + 1), runs.len() - i - 1),
        runs.len() == 1 ==> document_results(Ok(root)) == (
        match runs[0].field_items("results"@) {
            Some(results) => results,
            None => Seq::empty(),
        }),
{
    let a = runs.take(i);
    let m = seq![runs[i]];
    let b = runs.skip(i + 1);
    assert(runs =~= (a + m) + b);
    lemma_results_concat(a + m, b);
    lemma_results_concat(a, m);
    lemma_one_run(runs[i]);
    if runs.len() == 1 {
        assert(runs =~= seq![runs[0]]);
        lemma_one_run(runs[0]);
    }
}

/// The runs of a document are read one after the other: its findings are those of a document with the
/// first runs, and then those of one with the others.
pub proof fn runs_are_read_one_after_the_other(
    rule: RuleView,
    whole: Node,
    first: Node,
    second: Node,
    a: Seq<Node>,
    b: Seq<Node>,
    files: Seq<SourceFile>,
)
    requires
        whole.field_items("runs"@) == Some(a + b),
        first.field_items("runs"@) == Some(a),
        second.field_items("runs"@) == Some(b),
    ensures
        live_document_findings(rule, Ok(whole), files) == live_document_findings(
            rule,
            Ok(first),
            files,
        ) + live_document_findings(rule, Ok(second), files),
{
    lemma_results_concat(a, b);
    lemma_live_concat(rule, document_results(Ok(first)), document_results(Ok(second)), files);
}

/// The results of a run are read one after the other.
pub proof fn results_are_read_one_after_the_other(
    rule: RuleView,
    whole: Node,
    first: Node,
    second: Node,
    run: Node,
    run_a: Node,
    run_b: Node,
    a: Seq<Node>,
    b: Seq<Node>,
    files: Seq<SourceFile>,
)
    requires
        whole.field_items("runs"@) == Some(seq![run]),
        first.field_items("runs"@) == Some(seq![run_a]),
        second.field_items("runs"@) == Some(seq![run_b]),
        run.field_items("results"@) == Some(a + b),
        run_a.field_items("results"@) == Some(a),
        run_b.field_items("results"@) == Some(b),
    ensures
        live_document_findings(rule, Ok(whole), files) == live_document_findings(
            rule,
            Ok(first),
            files,
        ) + live_document_findings(rule, Ok(second), files),
{
    lemma_one_run(run);
    lemma_one_run(run_a);
    lemma_one_run(run_b);
    lemma_live_concat(rule, a, b, files);
}

proof fn lemma_all_located(rule: RuleView, results: Seq<Node>, n: int, files: Seq<SourceFile>)
    requires
        0 <= n <= results.len(),
        forall|i: int| 0 <= i < n ==> !nowhere(#[trigger] results[i]),
    ensures
        live_findings(rule, results, n, files).len() == n,
        forall|i: int|
            0 <= i < n ==> live_finding(rule, #[trigger] results[i], files) == Some(
                live_findings(rule, results, n, files)[i],
            ),
    decreases n,
{
    if n > 0 {
        lemma_all_located(rule, results, n - 1, files);
        lemma_live(rule, results[n - 1], files);
        assert(!nowhere(results[n - 1]));
        let uri = choose|uri: Seq<char>| #[trigger] located(results[n - 1], uri);
        assert(located(results[n - 1], uri));
        let before = live_findings(rule, results, n - 1, files);
        let now = live_findings(rule, results, n, files);
        assert forall|i: int| 0 <= i < n implies live_finding(rule, #[trigger] results[i], files)
            == Some(now[i]) by {
            if i < n - 1 {
                assert(now[i] == before[i]);
            }
        }
    }
}

/// Where all results of a document name a file, there are as many findings as results, and each
/// finding stands at the file and line of the result at its position and says what that says.
pub proof fn findings_stand_where_the_results_do(
    rule: RuleView,
    root: Node,
    files: Seq<SourceFile>,
)
    requires
        forall|i: int|
            0 <= i < document_results(Ok(root)).len() ==> !nowhere(
                #[trigger] document_results(Ok(root))[i],
            ),
    ensures
        ({
            let results = document_results(Ok(root));
            let found = live_document_findings(rule, Ok(root), files);
            &&& found.len() == results.len()
            &&& forall|i: int, uri: Seq<char>|
                0 <= i < found.len() && #[trigger] located(results[i], uri) ==> {
                    &&& says(found[i], rule, results[i])
                    &&& found[i].file == live_path(uri)
                    &&& is_line_of(found[i].snippet, files, found[i].file, found[i].line)
                }
        }),
{
    let results = document_results(Ok(root));
    let found = live_document_findings(rule, Ok(root), files);
    lemma_all_located(rule, results, results.len() as int, files);
    assert forall|i: int, uri: Seq<char>|
        0 <= i < found.len() && #[trigger] located(results[i], uri) implies {
        &&& says(found[i], rule, results[i])
        &&& found[i].file == live_path(uri)
        &&& is_line_of(found[i].snippet, files, found[i].file, found[i].line)
    } by {
        lemma_live(rule, results[i], files);
    }
}

/// Every result of every run that names a file is found: at that file, at its line, under the rule,
/// and with what it says, whatever the other results and runs hold.
pub proof fn every_result_with_a_place_is_found(
    rule: RuleView,
    root: Node,
    runs: Seq<Node>,
    i: int,
    results: Seq<Node>,
    j: int,
    uri: Seq<char>,
    files: Seq<SourceFile>,
)
    requires
        root.field_items("runs"@) == Some(runs),
        0 <= i < runs.len(),
        runs[i].field_items("results"@) == Some(results),
        0 <= j < results.len(),
        located(results[j], uri),
    ensures
        exists|f: FindingView|
            {
                &&& #[trigger] live_document_findings(rule, Ok(root), files).contains(f)
                &&& says(f, rule, results[j])
                &&& f.file == live_path(uri)
                &&& is_line_of(f.snippet, files, f.file, f.line)
            },
{
    results_are_those_of_all_runs(root, runs, i);
    let before = all_results(runs.take(i), i);
    let after = all_results(runs.skip(i + 1), runs.len() - i - 1);
    let all = document_results(Ok(root));
    let x = results[j];
    let head = before + results.take(j);
    let tail = results.skip(j + 1) + after;
    assert(all =~= (head + seq![x]) + tail);
    lemma_live_concat(rule, head + seq![x], tail, files);
    lemma_live_concat(rule, head, seq![x], files);
    lemma_live(rule, x, files);
    let f = live_finding(rule, x, files).unwrap();
    let a = live_findings(rule, head, head.len() as int, files);
    let m = live_findings(rule, seq![x], 1, files);
    assert(live_findings(rule, seq![x], 0, files) =~= Seq::<FindingView>::empty());
    assert(m =~= seq![f]);
    let found = live_document_findings(rule, Ok(root), files);
    assert(found[a.len() as int] == f);
    assert(found.contains(f));
}

/// Nothing else is found: each finding is that of a result that names a file, and what is no document
/// or has no runs has none.
pub proof fn only_results_with_a_place_are_found(
    rule: RuleView,
    document: Result<Node, String>,
    files: Seq<SourceFile>,
    k: int,
)
    ensures
        document is Err ==> live_document_findings(rule, document, files).len() == 0,
        (document matches Ok(root) && root.field_items("runs"@) is None)
            ==> live_document_findings(rule, document, files).len() == 0,
        live_document_findings(rule, document, files).len() <= document_results(document).len(),
        0 <= k < live_document_findings(rule, document, files).len() ==> exists|i: int, uri: Seq<char>|
            {
                &&& 0 <= i < document_results(document).len()
                &&& #[trigger] located(document_results(document)[i], uri)
                &&& says(
                    live_document_findings(rule, document, files)[k],
                    rule,
                    document_results(document)[i],
                )
                &&& live_document_findings(rule, document, files)[k].file == live_path(uri)
            },
{
    let results = document_results(document);
    lemma_only_located(rule, results, results.len() as int, files);
    if 0 <= k < live_document_findings(rule, document, files).len() {
        let f = live_document_findings(rule, document, files)[k];
        let i = choose|i: int|
            0 <= i < results.len() && live_finding(rule, #[trigger] results[i], files) == Some(f);
        lemma_live(rule, results[i], files);
        lemma_located(results[i]);
        let uri = choose|uri: Seq<char>| #[trigger] located(results[i], uri);
        assert(located(results[i], uri));
    }
}

proof fn lemma_only_located(rule: RuleView, results: Seq<Node>, n: int, files: Seq<SourceFile>)
    requires
        0 <= n <= results.len(),
    ensures
        live_findings(rule, results, n, files).len() <= n,
        forall|k: int|
            #![trigger live_findings(rule, results, n, files)[k]]
            0 <= k < live_findings(rule, results, n, files).len() ==> exists|i: int|
                0 <= i < n && live_finding(rule, #[trigger] results[i], files) == Some(
                    live_findings(rule, results, n, files)[k],
                ),
    decreases n,
{
    if n > 0 {
        lemma_only_located(rule, results, n - 1, files);
        let before = live_findings(rule, results, n - 1, files);
        let now = live_findings(rule, results, n, files);
        assert forall|k: int|
            #![trigger now[k]]
            0 <= k < now.len() implies exists|i: int|
                0 <= i < n && live_finding(rule, #[trigger] results[i], files) == Some(now[k]) by {
            if k < before.len() {
                assert(now[k] == before[k]);
                let i = choose|i: int|
                    0 <= i < n - 1 && live_finding(rule, #[trigger] results[i], files) == Some(
                        before[k],
                    );
                assert(live_finding(rule, results[i], files) == Some(now[k]));
            } else {
                assert(live_finding(rule, results[n - 1], files) == Some(now[k]));
            }
        }
    }
}

/// The files whose lines are shown are those that the results name: each of them, and no others.
pub proof fn named_files_are_those_of_the_results(results: Seq<Node>, path: Seq<char>)
    ensures
        named_files(results, results.len() as int).contains(path) <==> exists|i: int, uri: Seq<char>|
            0 <= i < results.len() && #[trigger] located(results[i], uri) && live_path(uri) == path,
{
    lemma_named(results, results.len() as int, path);
}

proof fn lemma_named(results: Seq<Node>, n: int, path: Seq<char>)
    requires
        0 <= n <= results.len(),
    ensures
        named_files(results, n).contains(path) <==> exists|i: int, uri: Seq<char>|
            0 <= i < n && #[trigger] located(results[i], uri) && live_path(uri) == path,
    decreases n,
{
    if n > 0 {
        lemma_named(results, n - 1, path);
        lemma_located(results[n - 1]);
        let before = named_files(results, n - 1);
        let now = named_files(results, n);
        if now.contains(path) {
            let k = choose|k: int| 0 <= k < now.len() && now[k] == path;
            if k < before.len() {
                assert(before[k] == path);
                assert(before.contains(path));
            } else {
                let uri = artifact(results[n - 1]).unwrap().field_text("uri"@).unwrap();
                assert(located(results[n - 1], uri));
            }
        }
        if exists|i: int, uri: Seq<char>|
            0 <= i < n && #[trigger] located(results[i], uri) && live_path(uri) == path {
            let (i, uri) = choose|i: int, uri: Seq<char>|
                0 <= i < n && #[trigger] located(results[i], uri) && live_path(uri) == path;
            if i < n - 1 {
                assert(before.contains(path));
                let k = choose|k: int| 0 <= k < before.len() && before[k] == path;
                assert(now[k] == path);
            } else {
                assert(now.last() == path);
                assert(now.contains(now.last()));
            }
        }
    }
}

// ---------------------------------------------------------------------------
// Identity
// ---------------------------------------------------------------------------

/// A result is told apart by a fingerprint of its own where it has one, else by its snippet, else by
/// its place and message.
pub proof fn identities_come_from_the_surest_source(
    result: Node,
    snippet: Option<Seq<char>>,
    message: Seq<char>,
    place: Place,
)
    ensures
        ({
            let identity = identity_of(result, snippet, message, place);
            &&& identity.1 == (fingerprint_of(result) is Some)
            &&& fingerprint_of(result) matches Some(f) ==> identity.0 == "fingerprint:"@ + f
            &&& fingerprint_of(result) is None && snippet is Some ==> identity.0 == "snippet:"@
                + trim_text(snippet.unwrap())
            &&& fingerprint_of(result) is None && snippet is None ==> identity.0 == "location:"@
                + decimal(place.line as nat) + ":"@ + decimal(place.column as nat) + ":"@ + decimal(
                place.end_line as nat,
            ) + ":"@ + decimal(place.end_column as nat) + ":"@ + trim_text(message)
        }),
{
}

/// Partial fingerprints count before others. Of a table of fingerprints the hash of the line counts
/// first; without a well-known one it is the text under the least name, and only a table without any
/// text has none.
pub proof fn the_first_fingerprint_counts(
    result: Node,
    field: Seq<char>,
    entries: Vec<(Node, Node)>,
    hash: Seq<char>,
)
    requires
        result.field(field) == Some(Node::Table(entries)),
    ensures
        fingerprint_in(result, "partialFingerprints"@) is Some ==> fingerprint_of(result)
            == fingerprint_in(result, "partialFingerprints"@),
        fingerprint_in(result, "partialFingerprints"@) is None ==> fingerprint_of(result)
            == fingerprint_in(result, "fingerprints"@),
        Node::Table(entries).field_text("primaryLocationLineHash"@) == Some(hash)
            ==> fingerprint_in(result, field) == Some(
            field + ":"@ + "primaryLocationLineHash"@ + ":"@ + hash,
        ),
        (forall|i: int|
            0 <= i < entries@.len() ==> (#[trigger] entries@[i]).0.text() is None
                || entries@[i].1.text() is None) ==> least_text_entry(
            entries@,
            entries@.len() as int,
        ) is None,
        least_text_entry(entries@, entries@.len() as int) matches Some(e) ==> {
            &&& exists|i: int|
                0 <= i < entries@.len() && (#[trigger] entries@[i]).0.text() == Some(e.0)
                    && entries@[i].1.text() == Some(e.1)
            &&& forall|i: int|
                0 <= i < entries@.len() && (#[trigger] entries@[i]).0.text() is Some
                    && entries@[i].1.text() is Some ==> text_le(e.0, entries@[i].0.text().unwrap())
        },
        least_text_entry(entries@, entries@.len() as int) is None ==> forall|i: int|
            0 <= i < entries@.len() ==> (#[trigger] entries@[i]).0.text() is None
                || entries@[i].1.text() is None,
{
    lemma_least(entries@, entries@.len() as int);
}

proof fn lemma_least(entries: Seq<(Node, Node)>, n: int)
    requires
        0 <= n <= entries.len(),
    ensures
        least_text_entry(entries, n) matches Some(e) ==> {
            &&& exists|i: int|
                0 <= i < n && (#[trigger] entries[i]).0.text() == Some(e.0) && entries[i].1.text()
                    == Some(e.1)
            &&& forall|i: int|
                0 <= i < n && (#[trigger] entries[i]).0.text() is Some && entries[i].1.text() is Some
                    ==> text_le(e.0, entries[i].0.text().unwrap())
        },
        least_text_entry(entries, n) is None ==> forall|i: int|
            0 <= i < n ==> (#[trigger] entries[i]).0.text() is None || entries[i].1.text() is None,
    decreases n,
{
    if n > 0 {
        lemma_least(entries, n - 1);
        let x = entries[n - 1];
        if x.0.text() is Some && x.1.text() is Some {
            let name = x.0.text().unwrap();
            crate::text::lemma_text_le_reflexive(name);
            if let Some(b) = least_text_entry(entries, n - 1) {
                lemma_text_le_total(b.0, name);
                if !text_le(b.0, name) {
                    assert forall|i: int|
                        0 <= i < n && (#[trigger] entries[i]).0.text() is Some
                            && entries[i].1.text() is Some implies text_le(
                        name,
                        entries[i].0.text().unwrap(),
                    ) by {
                        if i < n - 1 {
                            lemma_text_le_transitive(name, b.0, entries[i].0.text().unwrap());
                        }
                    }
                }
            }
            assert(entries[n - 1] == x);
        }
    }
}

} // verus!
