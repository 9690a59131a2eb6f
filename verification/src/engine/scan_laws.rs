//! What scans and comparisons with CodeQL bring together: the findings of every rule, run and file,
//! and what is said of those that bring none.

use crate::document::Node;
use crate::engine::artifact::{hex_value, longest_root, unescaped};
use crate::engine::codeql::{
    distinct_ids, fields_of, for_codeql, loaded_notices, optional_value, rule_of, rules_of,
    severity_value, skip_notice, strict_error, strict_rules, with_field, without_query, CodeQlRule,
    RuleFile, RuleView,
};
use crate::engine::codeql_diff::{
    all_numbered, artifact_paths, base_from, bases_of, document_findings, first_of_each, key_of,
    keys_of, new_findings, occurrences, resolver_of, result_finding, results_findings,
    rule_findings, rules_findings, run_findings, run_results, runs_findings, scanned, KeyView,
};
use crate::engine::codeql_scan::{
    ends_token, files_in, finding_order, holds_path, import_language, line_language, planned,
    runs_of, scan_says, skipped_notices, source_root_of, token_end, with_values, AutoDatabase,
    CodeQlScanResult, RuleRun, ScanSetup,
};
use crate::engine::result_laws::{
    findings_say_what_their_result_says, located, nowhere, own_snippet, says,
};
use crate::engine::sarif::{
    all_results, artifact, document_results, live_document_findings, DiffFindingView,
};
use crate::finding::{finding_views, FindingView};
use crate::paths::path_parts;
use crate::sort::{sorting_orders_and_permutes, stable_sort};
use crate::text::{replace_text, text_le, texts};
use vstd::prelude::*;

verus! {

// ---------------------------------------------------------------------------
// Scans of the working tree
// ---------------------------------------------------------------------------

proof fn lemma_runs_prefix(
    rules: Seq<RuleView>,
    more_rules: Seq<RuleView>,
    setup: ScanSetup,
    autos: Seq<AutoDatabase>,
    more_autos: Seq<AutoDatabase>,
    runs: Seq<RuleRun>,
    more_runs: Seq<RuleRun>,
    n: int,
)
    requires
        0 <= n <= rules.len(),
        n <= more_rules.len(),
        forall|i: int|
            0 <= i < n ==> rules[i] == more_rules[i] && autos[i] == more_autos[i] && runs[i]
                == more_runs[i],
    ensures
        runs_of(rules, setup, autos, runs, n) == runs_of(
            more_rules,
            setup,
            more_autos,
            more_runs,
            n,
        ),
        skipped_notices(rules, setup, autos, n) == skipped_notices(
            more_rules,
            setup,
            more_autos,
            n,
        ),
    decreases n,
{
    if n > 0 {
        lemma_runs_prefix(rules, more_rules, setup, autos, more_autos, runs, more_runs, n - 1);
    }
}

/// Rules are run one after the other, each on its own: what the runs of two lists of rules bring is
/// what those of the first bring, and then those of the second. The same holds of the notices on
/// rules that are skipped.
pub proof fn rules_run_one_after_the_other(
    a: Seq<RuleView>,
    b: Seq<RuleView>,
    setup: ScanSetup,
    a_autos: Seq<AutoDatabase>,
    b_autos: Seq<AutoDatabase>,
    a_runs: Seq<RuleRun>,
    b_runs: Seq<RuleRun>,
)
    requires
        a_autos.len() == a.len() && a_runs.len() == a.len(),
        b_autos.len() == b.len() && b_runs.len() == b.len(),
    ensures
        ({
            let n = a.len() as int;
            let m = b.len() as int;
            let both = runs_of(a + b, setup, a_autos + b_autos, a_runs + b_runs, n + m);
            let first = runs_of(a, setup, a_autos, a_runs, n);
            let second = runs_of(b, setup, b_autos, b_runs, m);
            &&& both.findings == first.findings + second.findings
            &&& both.notices == first.notices + second.notices
            &&& skipped_notices(a + b, setup, a_autos + b_autos, n + m) == skipped_notices(
                a,
                setup,
                a_autos,
                n,
            ) + skipped_notices(b, setup, b_autos, m)
        }),
    decreases b.len(),
{
    let n = a.len() as int;
    let m = b.len() as int;
    let first = runs_of(a, setup, a_autos, a_runs, n);
    let skipped = skipped_notices(a, setup, a_autos, n);
    lemma_runs_prefix(
        a,
        a + b,
        setup,
        a_autos,
        a_autos + b_autos,
        a_runs,
        a_runs + b_runs,
        n,
    );
    if m == 0 {
        assert(first.findings + Seq::<FindingView>::empty() =~= first.findings);
        assert(first.notices + Seq::<Seq<char>>::empty() =~= first.notices);
        assert(skipped + Seq::<Seq<char>>::empty() =~= skipped);
    } else {
        let c = b.drop_last();
        let c_autos = b_autos.drop_last();
        let c_runs = b_runs.drop_last();
        rules_run_one_after_the_other(a, c, setup, a_autos, c_autos, a_runs, c_runs);
        lemma_runs_prefix(
            a + c,
            a + b,
            setup,
            a_autos + c_autos,
            a_autos + b_autos,
            a_runs + c_runs,
            a_runs + b_runs,
            n + m - 1,
        );
        lemma_runs_prefix(c, b, setup, c_autos, b_autos, c_runs, b_runs, m - 1);
        assert((a + b)[n + m - 1] == b[m - 1]);
        assert((a_autos + b_autos)[n + m - 1] == b_autos[m - 1]);
        assert((a_runs + b_runs)[n + m - 1] == b_runs[m - 1]);
        let second = runs_of(c, setup, c_autos, c_runs, m - 1);
        let more = skipped_notices(c, setup, c_autos, m - 1);
        match planned(b[m - 1], setup, b_autos[m - 1]) {
            Err(notice) => {
                assert((skipped + more).push(notice) =~= skipped + more.push(notice));
            },
            Ok(_) => match b_runs[m - 1] {
                RuleRun::Failed(error) => {
                    let notice = "Warning: CodeQL rule '"@ + b[m - 1].id + "' failed: "@ + error@;
                    assert((first.notices + second.notices).push(notice) =~= first.notices
                        + second.notices.push(notice));
                },
                RuleRun::Finished { document, files } => {
                    let found = live_document_findings(b[m - 1], document, files@);
                    assert(first.findings + second.findings + found =~= first.findings + (
                    second.findings + found));
                },
            },
        }
    }
}

/// What one rule brings: the findings of its document where it ran, a notice where it failed or was
/// skipped, and nothing else.
pub proof fn one_rule_brings_what_its_run_brought(
    rule: RuleView,
    setup: ScanSetup,
    auto: AutoDatabase,
    run: RuleRun,
)
    ensures
        ({
            let all = runs_of(seq![rule], setup, seq![auto], seq![run], 1);
            let skipped = skipped_notices(seq![rule], setup, seq![auto], 1);
            match planned(rule, setup, auto) {
                Err(notice) => all.findings.len() == 0 && all.notices.len() == 0
                    && all.databases.len() == 0 && skipped == seq![notice],
                Ok(database) => skipped.len() == 0 && match run {
                    RuleRun::Failed(error) => all.findings.len() == 0 && all.databases.len() == 0
                        && all.notices == seq![
                        "Warning: CodeQL rule '"@ + rule.id + "' failed: "@ + error@,
                    ],
                    RuleRun::Finished { document, files } => all.findings
                        == live_document_findings(rule, document, files@) && all.notices.len() == 0
                        && all.databases == seq![database],
                },
            }
        }),
{
    let none = runs_of(seq![rule], setup, seq![auto], seq![run], 0);
    let nothing = skipped_notices(seq![rule], setup, seq![auto], 0);
    assert(none.findings =~= Seq::<FindingView>::empty());
    match planned(rule, setup, auto) {
        Err(notice) => {
            assert(nothing.push(notice) =~= seq![notice]);
        },
        Ok(database) => match run {
            RuleRun::Failed(error) => {
                let notice = "Warning: CodeQL rule '"@ + rule.id + "' failed: "@ + error@;
                assert(none.notices.push(notice) =~= seq![notice]);
            },
            RuleRun::Finished { document, files } => {
                let found = live_document_findings(rule, document, files@);
                assert(none.findings + found =~= found);
                assert(!holds_path(none.databases, database));
                assert(none.databases.push(database) =~= seq![database]);
            },
        },
    }
}

/// Every finding of every rule that ran is among the findings of the scan, whatever the other rules
/// brought, and nothing else is.
pub proof fn scans_hold_the_findings_of_every_rule(
    r: CodeQlScanResult,
    rules: Seq<RuleView>,
    setup: ScanSetup,
    autos: Seq<AutoDatabase>,
    runs: Seq<RuleRun>,
    f: FindingView,
)
    requires
        scan_says(r, rules, setup, autos, runs),
        setup.probe is Ok,
        rules.len() > 0,
        autos.len() == rules.len(),
        runs.len() == rules.len(),
    ensures
        finding_views(r.findings@).contains(f) <==> exists|i: int|
            {
                &&& 0 <= i < rules.len()
                &&& planned(#[trigger] rules[i], setup, autos[i]) is Ok
                &&& runs[i] matches RuleRun::Finished { document, files }
                &&& live_document_findings(rules[i], document, files@).contains(f)
            },
{
    broadcast use vstd::seq_lib::group_to_multiset_ensures;

    let n = rules.len() as int;
    let all = runs_of(rules, setup, autos, runs, n).findings;
    crate::engine::codeql_scan::scans_are_in_order(all);
    let sorted = stable_sort(all, finding_order());
    assert(sorted.contains(f) <==> sorted.to_multiset().count(f) > 0);
    assert(all.contains(f) <==> all.to_multiset().count(f) > 0);
    lemma_run_findings(rules, setup, autos, runs, n, f);
}

proof fn lemma_run_findings(
    rules: Seq<RuleView>,
    setup: ScanSetup,
    autos: Seq<AutoDatabase>,
    runs: Seq<RuleRun>,
    n: int,
    f: FindingView,
)
    requires
        0 <= n <= rules.len(),
    ensures
        runs_of(rules, setup, autos, runs, n).findings.contains(f) <==> exists|i: int|
            {
                &&& 0 <= i < n
                &&& planned(#[trigger] rules[i], setup, autos[i]) is Ok
                &&& runs[i] matches RuleRun::Finished { document, files }
                &&& live_document_findings(rules[i], document, files@).contains(f)
            },
    decreases n,
{
    if n > 0 {
        lemma_run_findings(rules, setup, autos, runs, n - 1, f);
        let before = runs_of(rules, setup, autos, runs, n - 1).findings;
        let now = runs_of(rules, setup, autos, runs, n).findings;
        let here = rules[n - 1];
        if planned(here, setup, autos[n - 1]) is Ok {
            if let RuleRun::Finished { document, files } = runs[n - 1] {
                let found = live_document_findings(here, document, files@);
                if now.contains(f) {
                    let k = choose|k: int| 0 <= k < now.len() && now[k] == f;
                    if k < before.len() {
                        assert(before[k] == f);
                        assert(before.contains(f));
                    } else {
                        assert(found[k - before.len()] == f);
                        assert(found.contains(f));
                        assert(rules[n - 1] == here);
                    }
                }
                if found.contains(f) {
                    let k = choose|k: int| 0 <= k < found.len() && found[k] == f;
                    assert(now[before.len() + k] == f);
                }
                if before.contains(f) {
                    let k = choose|k: int| 0 <= k < before.len() && before[k] == f;
                    assert(now[k] == f);
                }
            }
        }
    }
}

/// Databases are counted by their paths: each that was analysed is counted once, and no other.
pub proof fn databases_are_counted_once(
    rules: Seq<RuleView>,
    setup: ScanSetup,
    autos: Seq<AutoDatabase>,
    runs: Seq<RuleRun>,
    n: int,
    path: Seq<char>,
)
    requires
        0 <= n <= rules.len(),
    ensures
        ({
            let databases = runs_of(rules, setup, autos, runs, n).databases;
            &&& forall|i: int, j: int|
                0 <= i < j < databases.len() ==> path_parts(#[trigger] databases[i]) != path_parts(
                    #[trigger] databases[j],
                )
            &&& holds_path(databases, path) <==> exists|i: int|
                0 <= i < n && (planned(#[trigger] rules[i], setup, autos[i]) matches Ok(d)
                    && path_parts(d) == path_parts(path)) && runs[i] is Finished
        }),
    decreases n,
{
    if n > 0 {
        databases_are_counted_once(rules, setup, autos, runs, n - 1, path);
        let before = runs_of(rules, setup, autos, runs, n - 1).databases;
        let now = runs_of(rules, setup, autos, runs, n).databases;
        if planned(rules[n - 1], setup, autos[n - 1]) is Ok && runs[n - 1] is Finished {
            let d = planned(rules[n - 1], setup, autos[n - 1])->Ok_0;
            if !holds_path(before, d) {
                assert(now == before.push(d));
                assert forall|i: int, j: int| 0 <= i < j < now.len() implies path_parts(
                    #[trigger] now[i],
                ) != path_parts(#[trigger] now[j]) by {
                    if j == before.len() {
                        assert(before[i] == now[i]);
                    } else {
                        assert(before[i] == now[i] && before[j] == now[j]);
                    }
                }
                if holds_path(now, path) {
                    let k = choose|k: int|
                        0 <= k < now.len() && path_parts(#[trigger] now[k]) == path_parts(path);
                    if k < before.len() {
                        assert(before[k] == now[k]);
                        assert(holds_path(before, path));
                    }
                }
                if holds_path(before, path) {
                    let k = choose|k: int|
                        0 <= k < before.len() && path_parts(#[trigger] before[k]) == path_parts(
                            path,
                        );
                    assert(now[k] == before[k]);
                    assert(holds_path(now, path));
                }
                if path_parts(d) == path_parts(path) {
                    assert(now[before.len() as int] == d);
                    assert(holds_path(now, path));
                }
            } else {
                let k = choose|k: int|
                    0 <= k < before.len() && path_parts(#[trigger] before[k]) == path_parts(d);
                if path_parts(d) == path_parts(path) {
                    assert(path_parts(before[k]) == path_parts(path));
                    assert(holds_path(now, path));
                }
            }
        }
    }
}

// ---------------------------------------------------------------------------
// Languages and places
// ---------------------------------------------------------------------------

/// How many files are in a language is how many of the extensions belong to it.
pub proof fn files_are_counted_by_extension(extensions: Seq<Seq<char>>, language: Seq<char>, n: int)
    requires
        0 <= n <= extensions.len(),
    ensures
        files_in(extensions, language, n) == extensions.take(n).filter(
            |e: Seq<char>| crate::engine::codeql_scan::extension_language(e) == Some(language),
        ).len(),
    decreases n,
{
    let p = |e: Seq<char>| crate::engine::codeql_scan::extension_language(e) == Some(language);
    if n > 0 {
        files_are_counted_by_extension(extensions, language, n - 1);
        assert(extensions.take(n) =~= extensions.take(n - 1).push(extensions[n - 1]));
        extensions.take(n - 1).lemma_filter_push(extensions[n - 1], p);
    } else {
        reveal(Seq::filter);
        assert(extensions.take(0).filter(p).len() == 0);
    }
}

/// The first import of a language counts, and only the first part of what is imported names one.
pub proof fn the_first_import_counts(all: Seq<Seq<char>>, k: int)
    requires
        0 <= k <= all.len(),
        forall|i: int| 0 <= i < k ==> line_language(#[trigger] all[i]) is None,
    ensures
        k < all.len() && line_language(all[k]) is Some ==> import_language(all, 0) == line_language(
            all[k],
        ),
        k == all.len() ==> import_language(all, 0) is None,
{
    lemma_import(all, 0, k);
}

proof fn lemma_import(all: Seq<Seq<char>>, i: int, k: int)
    requires
        0 <= i <= k <= all.len(),
        forall|j: int| i <= j < k ==> line_language(#[trigger] all[j]) is None,
    ensures
        k < all.len() && line_language(all[k]) is Some ==> import_language(all, i) == line_language(
            all[k],
        ),
        k == all.len() ==> import_language(all, i) is None,
    decreases k - i,
{
    if i < k {
        assert(line_language(all[i]) is None);
        lemma_import(all, i + 1, k);
    }
}

/// The first part of an imported name reaches to the first character that ends it.
pub proof fn names_end_at_the_first_separator(name: Seq<char>, rest: Seq<char>)
    requires
        forall|i: int| 0 <= i < name.len() ==> !ends_token(#[trigger] name[i]),
        rest.len() == 0 || ends_token(rest[0]),
    ensures
        (name + rest).take(token_end(name + rest, 0)) == name,
{
    lemma_token_end(name, rest, 0);
    assert((name + rest).take(name.len() as int) =~= name);
}

proof fn lemma_token_end(name: Seq<char>, rest: Seq<char>, i: int)
    requires
        0 <= i <= name.len(),
        forall|j: int| 0 <= j < name.len() ==> !ends_token(#[trigger] name[j]),
        rest.len() == 0 || ends_token(rest[0]),
    ensures
        token_end(name + rest, i) == name.len(),
    decreases name.len() - i,
{
    let s = name + rest;
    if i < name.len() {
        assert(s[i] == name[i]);
        lemma_token_end(name, rest, i + 1);
    } else if rest.len() > 0 {
        assert(s[i] == rest[0]);
    }
}

/// Every place that is named is there, once, and no other: where all are proper, a place is among
/// them exactly where it was before or one of the values names it.
pub proof fn named_places_are_all_there(
    before: Seq<Seq<char>>,
    key: Seq<char>,
    values: Seq<Node>,
    n: int,
    metadata_path: Seq<char>,
    place: Seq<char>,
)
    requires
        0 <= n <= values.len(),
        before.no_duplicates(),
    ensures
        with_values(before, key, values, n, metadata_path) matches Ok(found) ==> {
            &&& found.no_duplicates()
            &&& forall|i: int| 0 <= i < n ==> (#[trigger] values[i]).text() is Some
            &&& found.contains(place) <==> before.contains(place) || exists|i: int|
                0 <= i < n && source_root_of(key, (#[trigger] values[i]).text().unwrap()) == Ok::<
                    _,
                    Seq<char>,
                >(place)
        },
    decreases n,
{
    if n > 0 {
        named_places_are_all_there(before, key, values, n - 1, metadata_path, place);
        if let Ok(found) = with_values(before, key, values, n - 1, metadata_path) {
            if let Some(value) = values[n - 1].text() {
                if let Ok(root) = source_root_of(key, value) {
                    let now = with_values(before, key, values, n, metadata_path)->Ok_0;
                    if !found.contains(root) {
                        assert(now == found.push(root));
                        assert(now.no_duplicates()) by {
                            assert forall|i: int, j: int|
                                0 <= i < now.len() && 0 <= j < now.len() && i != j implies now[i]
                                != now[j] by {
                                if i < found.len() {
                                    assert(found.contains(found[i]));
                                }
                                if j < found.len() {
                                    assert(found.contains(found[j]));
                                }
                            }
                        }
                    }
                    if found.contains(place) {
                        let k = choose|k: int| 0 <= k < found.len() && found[k] == place;
                        assert(now[k] == place);
                    }
                    if now.contains(place) && !found.contains(place) {
                        let k = choose|k: int| 0 <= k < now.len() && now[k] == place;
                        if k < found.len() {
                            assert(found[k] == place);
                        }
                        assert(place == root);
                        assert(source_root_of(key, values[n - 1].text().unwrap()) == Ok::<
                            _,
                            Seq<char>,
                        >(place));
                    }
                    if root == place {
                        if found.contains(root) {
                        } else {
                            assert(now[found.len() as int] == place);
                        }
                    }
                    if exists|i: int|
                        0 <= i < n && source_root_of(key, (#[trigger] values[i]).text().unwrap())
                            == Ok::<_, Seq<char>>(place) {
                        let i = choose|i: int|
                            0 <= i < n && source_root_of(
                                key,
                                (#[trigger] values[i]).text().unwrap(),
                            ) == Ok::<_, Seq<char>>(place);
                        if i < n - 1 {
                            assert(found.contains(place));
                        } else {
                            assert(root == place);
                        }
                        assert(now.contains(place));
                    }
                }
            }
        }
    }
}

// ---------------------------------------------------------------------------
// Comparisons
// ---------------------------------------------------------------------------

/// The finding is that of the result: it names a file, and the finding says what the result says and
/// shows the result's own snippet.
pub open spec fn stands_for(f: DiffFindingView, rule: RuleView, result: Node) -> bool {
    &&& !nowhere(result)
    &&& says(f.finding, rule, result)
    &&& f.finding.snippet == (match own_snippet(result) {
        Some(t) => t,
        None => Seq::empty(),
    })
}

proof fn lemma_result_finding(
    rule: RuleView,
    run: Node,
    source_roots: Seq<Seq<char>>,
    results: Seq<Node>,
    n: int,
    run_position: nat,
)
    requires
        0 <= n <= results.len(),
        resolver_of(run, source_roots) is Ok,
    ensures
        ({
            let resolver = resolver_of(run, source_roots)->Ok_0;
            results_findings(rule, results, n, resolver, run_position) matches Ok(found) ==> {
                &&& found.len() == n
                &&& forall|i: int|
                    0 <= i < n ==> stands_for(#[trigger] found[i], rule, results[i])
                        && artifact(results[i]) is Some && artifact_paths(
                        resolver,
                        artifact(results[i]).unwrap(),
                    ) == Ok::<_, Seq<char>>((found[i].finding.file, found[i].comparison_path))
            }
        }),
    decreases n,
{
    let resolver = resolver_of(run, source_roots)->Ok_0;
    if n > 0 {
        lemma_result_finding(rule, run, source_roots, results, n - 1, run_position);
        if let Ok(now) = results_findings(rule, results, n, resolver, run_position) {
            let before = results_findings(rule, results, n - 1, resolver, run_position)->Ok_0;
            let x = results[n - 1];
            assert(result_finding(rule, x, resolver, n as nat, run_position) is Ok);
            assert forall|i: int| 0 <= i < n implies stands_for(#[trigger] now[i], rule, results[i])
                && artifact(results[i]) is Some && artifact_paths(
                resolver,
                artifact(results[i]).unwrap(),
            ) == Ok::<_, Seq<char>>((now[i].finding.file, now[i].comparison_path)) by {
                if i < n - 1 {
                    assert(now[i] == before[i]);
                } else {
                    let a = artifact(x).unwrap();
                    let p = artifact_paths(resolver, a)->Ok_0;
                    findings_say_what_their_result_says(rule, x, p.0, p.1, None);
                    assert(located(x, a.field_text("uri"@).unwrap()));
                }
            }
        }
    }
}

/// A run can be compared only where each of its results names a file; then there is one finding for
/// each, in their order, at the place that the run's own bases give its file.
pub proof fn runs_are_compared_result_by_result(
    rule: RuleView,
    run: Node,
    position: nat,
    source_roots: Seq<Seq<char>>,
    results: Seq<Node>,
)
    requires
        run.field_items("results"@) == Some(results),
    ensures
        run_findings(rule, run, position, source_roots) matches Ok(found) ==> {
            &&& found.0.len() == results.len()
            &&& forall|i: int|
                0 <= i < results.len() ==> stands_for(#[trigger] found.0[i], rule, results[i])
                    && artifact(results[i]) is Some && artifact_paths(
                    resolver_of(run, source_roots)->Ok_0,
                    artifact(results[i]).unwrap(),
                ) == Ok::<_, Seq<char>>((found.0[i].finding.file, found.0[i].comparison_path))
        },
{
    if run_findings(rule, run, position, source_roots) is Ok {
        lemma_result_finding(
            rule,
            run,
            source_roots,
            results,
            results.len() as int,
            position,
        );
    }
}

proof fn lemma_runs_compared(rule: RuleView, runs: Seq<Node>, n: int, source_roots: Seq<Seq<char>>)
    requires
        0 <= n <= runs.len(),
    ensures
        runs_findings(rule, runs, n, source_roots) matches Ok(found) ==> {
            &&& found.0.len() == all_results(runs, n).len()
            &&& forall|i: int|
                0 <= i < found.0.len() ==> stands_for(
                    #[trigger] found.0[i],
                    rule,
                    all_results(runs, n)[i],
                )
        },
    decreases n,
{
    if n > 0 {
        lemma_runs_compared(rule, runs, n - 1, source_roots);
        if let Ok(found) = runs_findings(rule, runs, n, source_roots) {
            let before = runs_findings(rule, runs, n - 1, source_roots)->Ok_0;
            let here = run_findings(rule, runs[n - 1], n as nat, source_roots)->Ok_0;
            let results = runs[n - 1].field_items("results"@).unwrap();
            assert(run_results(runs[n - 1], n as nat) is Ok);
            runs_are_compared_result_by_result(
                rule,
                runs[n - 1],
                n as nat,
                source_roots,
                results,
            );
            assert forall|i: int| 0 <= i < found.0.len() implies stands_for(
                #[trigger] found.0[i],
                rule,
                all_results(runs, n)[i],
            ) by {
                if i < before.0.len() {
                    assert(found.0[i] == before.0[i]);
                } else {
                    assert(found.0[i] == here.0[i - before.0.len()]);
                }
            }
        }
    }
}

/// A document is compared as a whole: there is one finding for each of its results, in their order,
/// and each says what its result says.
pub proof fn documents_are_compared_result_by_result(
    rule: RuleView,
    root: Node,
    source_roots: Seq<Seq<char>>,
)
    ensures
        document_findings(rule, Ok(root), source_roots) matches Ok(found) ==> {
            &&& found.0.len() == document_results(Ok(root)).len()
            &&& forall|i: int|
                0 <= i < found.0.len() ==> stands_for(
                    #[trigger] found.0[i],
                    rule,
                    document_results(Ok(root))[i],
                )
        },
{
    if let Ok(found) = document_findings(rule, Ok(root), source_roots) {
        let runs = root.field_items("runs"@).unwrap();
        lemma_runs_compared(rule, runs, runs.len() as int, source_roots);
        let plain = runs_findings(rule, runs, runs.len() as int, source_roots)->Ok_0;
        assert forall|i: int| 0 <= i < found.0.len() implies stands_for(
            #[trigger] found.0[i],
            rule,
            document_results(Ok(root))[i],
        ) by {
            assert(found.0[i].finding == plain.0[i].finding);
            assert(stands_for(plain.0[i], rule, all_results(runs, runs.len() as int)[i]));
        }
    }
}

proof fn lemma_rules_prefix(
    a: Seq<RuleView>,
    b: Seq<RuleView>,
    n: int,
    database: Seq<char>,
    x: Seq<Result<Result<Node, String>, String>>,
    y: Seq<Result<Result<Node, String>, String>>,
    source_roots: Seq<Seq<char>>,
)
    requires
        0 <= n <= a.len(),
        n <= b.len(),
        forall|i: int| 0 <= i < n ==> a[i] == b[i] && x[i] == y[i],
    ensures
        rules_findings(a, n, database, x, source_roots) == rules_findings(
            b,
            n,
            database,
            y,
            source_roots,
        ),
    decreases n,
{
    if n > 0 {
        lemma_rules_prefix(a, b, n - 1, database, x, y, source_roots);
    }
}

/// A database is compared only where every rule could be run on it and read; then the findings of
/// each rule are there, and nothing else is.
pub proof fn comparisons_hold_the_findings_of_every_rule(
    rules: Seq<RuleView>,
    database: Seq<char>,
    documents: Seq<Result<Result<Node, String>, String>>,
    source_roots: Seq<Seq<char>>,
    f: DiffFindingView,
)
    requires
        documents.len() == rules.len(),
    ensures
        scanned(rules, database, documents, source_roots) is Ok <==> forall|i: int|
            0 <= i < rules.len() ==> rule_findings(
                #[trigger] rules[i],
                database,
                documents[i],
                source_roots,
            ) is Ok,
        scanned(rules, database, documents, source_roots) matches Ok(found) ==> (found.0.contains(f)
            <==> exists|i: int|
            {
                &&& 0 <= i < rules.len()
                &&& rule_findings(
                    #[trigger] rules[i],
                    database,
                    documents[i],
                    source_roots,
                )->Ok_0.0.contains(f)
            }),
{
    broadcast use vstd::seq_lib::group_to_multiset_ensures;

    let n = rules.len() as int;
    lemma_compared_rules(rules, n, database, documents, source_roots, f);
    if let Ok(all) = rules_findings(rules, n, database, documents, source_roots) {
        lemma_diff_order();
        let le = crate::engine::codeql_diff::diff_order();
        sorting_orders_and_permutes(all.0, le);
        let sorted = stable_sort(all.0, le);
        assert(sorted.contains(f) <==> sorted.to_multiset().count(f) > 0);
        assert(all.0.contains(f) <==> all.0.to_multiset().count(f) > 0);
    }
}

proof fn lemma_diff_order()
    ensures
        crate::sort::total_preorder(crate::engine::codeql_diff::diff_order()),
{
    lemma_place_order();
    let le = crate::engine::codeql_diff::diff_order();
    let place = finding_order();
    assert forall|a: DiffFindingView| #[trigger] le(a, a) by {
        assert(place(a.finding, a.finding));
    }
    assert forall|a: DiffFindingView, b: DiffFindingView| #[trigger] le(a, b) || le(b, a) by {
        assert(place(a.finding, b.finding) || place(b.finding, a.finding));
    }
    assert forall|a: DiffFindingView, b: DiffFindingView, c: DiffFindingView| #[trigger]
        le(a, b) && #[trigger] le(b, c) implies le(a, c) by {
        assert(place(a.finding, b.finding) && place(b.finding, c.finding));
    }
}

/// Findings are ordered by file, then line, then column, then rule.
pub proof fn findings_are_ordered_by_place(a: FindingView, b: FindingView)
    ensures
        finding_order()(a, b) == if a.file != b.file {
            text_le(a.file, b.file)
        } else if a.line != b.line {
            a.line < b.line
        } else if a.column != b.column {
            a.column < b.column
        } else {
            text_le(a.rule_id, b.rule_id)
        },
{
}

proof fn lemma_place_order()
    ensures
        crate::sort::total_preorder(finding_order()),
{
    let le = finding_order();
    assert forall|a: FindingView| #[trigger] le(a, a) by {
        crate::text::lemma_text_le_reflexive(a.rule_id);
    }
    assert forall|a: FindingView, b: FindingView| #[trigger] le(a, b) || le(b, a) by {
        crate::text::lemma_text_le_total(a.file, b.file);
        crate::text::lemma_text_le_total(a.rule_id, b.rule_id);
    }
    assert forall|a: FindingView, b: FindingView, c: FindingView| #[trigger]
        le(a, b) && #[trigger] le(b, c) implies le(a, c) by {
        if a.file != b.file || b.file != c.file {
            crate::text::lemma_text_le_reflexive(a.file);
            crate::text::lemma_text_le_reflexive(b.file);
            crate::text::lemma_text_le_transitive(a.file, b.file, c.file);
            if a.file == c.file {
                crate::text::lemma_text_le_antisymmetric(a.file, b.file);
            }
        } else if a.line == b.line && b.line == c.line && a.column == b.column && b.column
            == c.column {
            crate::text::lemma_text_le_transitive(a.rule_id, b.rule_id, c.rule_id);
        }
    }
}

proof fn lemma_compared_rules(
    rules: Seq<RuleView>,
    n: int,
    database: Seq<char>,
    documents: Seq<Result<Result<Node, String>, String>>,
    source_roots: Seq<Seq<char>>,
    f: DiffFindingView,
)
    requires
        0 <= n <= rules.len(),
    ensures
        rules_findings(rules, n, database, documents, source_roots) is Ok <==> forall|i: int|
            0 <= i < n ==> rule_findings(
                #[trigger] rules[i],
                database,
                documents[i],
                source_roots,
            ) is Ok,
        rules_findings(rules, n, database, documents, source_roots) matches Ok(found) ==> (
        found.0.contains(f) <==> exists|i: int|
            {
                &&& 0 <= i < n
                &&& rule_findings(
                    #[trigger] rules[i],
                    database,
                    documents[i],
                    source_roots,
                )->Ok_0.0.contains(f)
            }),
    decreases n,
{
    if n > 0 {
        lemma_compared_rules(rules, n - 1, database, documents, source_roots, f);
        if let Ok(now) = rules_findings(rules, n, database, documents, source_roots) {
            let before = rules_findings(rules, n - 1, database, documents, source_roots)->Ok_0;
            let here = rule_findings(rules[n - 1], database, documents[n - 1], source_roots)->Ok_0;
            if now.0.contains(f) {
                let k = choose|k: int| 0 <= k < now.0.len() && now.0[k] == f;
                if k < before.0.len() {
                    assert(before.0[k] == f);
                    assert(before.0.contains(f));
                } else {
                    assert(here.0[k - before.0.len()] == f);
                    assert(here.0.contains(f));
                    assert(rule_findings(
                        rules[n - 1],
                        database,
                        documents[n - 1],
                        source_roots,
                    )->Ok_0.0.contains(f));
                }
            }
            if before.0.contains(f) {
                let k = choose|k: int| 0 <= k < before.0.len() && before.0[k] == f;
                assert(now.0[k] == f);
            }
            if here.0.contains(f) {
                let k = choose|k: int| 0 <= k < here.0.len() && here.0[k] == f;
                assert(now.0[before.0.len() + k] == f);
            }
        }
    }
}

proof fn lemma_first_prefix(a: Seq<DiffFindingView>, b: Seq<DiffFindingView>, n: int)
    requires
        0 <= n <= a.len(),
        n <= b.len(),
        forall|i: int| 0 <= i < n ==> a[i] == b[i],
    ensures
        first_of_each(a, n) == first_of_each(b, n),
    decreases n,
{
    if n > 0 {
        lemma_first_prefix(a, b, n - 1);
        assert(keys_of(a).take(n - 1) =~= keys_of(b).take(n - 1));
    }
}

proof fn lemma_new_step(s: Seq<DiffFindingView>, x: DiffFindingView, base: Seq<DiffFindingView>)
    ensures
        new_findings(s.push(x), base) == if keys_of(s).contains(key_of(x)) || keys_of(base).contains(
            key_of(x),
        ) {
            new_findings(s, base)
        } else {
            new_findings(s, base).push(x)
        },
{
    let all = s.push(x);
    let n = s.len() as int;
    let p = |f: DiffFindingView| !keys_of(base).contains(key_of(f));
    lemma_first_prefix(all, s, n);
    assert(keys_of(all).take(n) =~= keys_of(s));
    first_of_each(s, n).lemma_filter_push(x, p);
}

/// A comparison goes through the current findings in order: the later ones are compared with the base
/// and with the earlier ones. A single finding is new exactly where the base has none of its key.
pub proof fn later_findings_are_compared_with_earlier_ones(
    a: Seq<DiffFindingView>,
    b: Seq<DiffFindingView>,
    base: Seq<DiffFindingView>,
    x: DiffFindingView,
)
    ensures
        new_findings(a + b, base) == new_findings(a, base) + new_findings(b, base + a),
        new_findings(seq![x], base) == if keys_of(base).contains(key_of(x)) {
            Seq::empty()
        } else {
            seq![x]
        },
    decreases b.len(),
{
    let none = Seq::<DiffFindingView>::empty();
    reveal(Seq::filter);
    assert(new_findings(none, base) =~= none);
    assert(new_findings(none, base + a) =~= none);
    lemma_new_step(none, x, base);
    assert(none.push(x) =~= seq![x]);
    assert(keys_of(none).len() == 0);
    if b.len() == 0 {
        assert(a + b =~= a);
        assert(b =~= none);
        assert(new_findings(a, base) + none =~= new_findings(a, base));
    } else {
        let t = b.drop_last();
        let y = b.last();
        later_findings_are_compared_with_earlier_ones(a, t, base, x);
        assert(a + b =~= (a + t).push(y));
        assert(b =~= t.push(y));
        lemma_new_step(a + t, y, base);
        lemma_new_step(t, y, base + a);
        lemma_keys_concat(a, t, key_of(y));
        lemma_keys_concat(base, a, key_of(y));
        let u = new_findings(a, base);
        let v = new_findings(t, base + a);
        assert((u + v).push(y) =~= u + v.push(y));
    }
}

proof fn lemma_keys_concat(a: Seq<DiffFindingView>, b: Seq<DiffFindingView>, key: KeyView)
    ensures
        keys_of(a + b).contains(key) <==> keys_of(a).contains(key) || keys_of(b).contains(key),
{
    assert(keys_of(a + b) =~= keys_of(a) + keys_of(b));
    let x = keys_of(a);
    let y = keys_of(b);
    if x.contains(key) {
        let k = choose|k: int| 0 <= k < x.len() && x[k] == key;
        assert((x + y)[k] == key);
    }
    if y.contains(key) {
        let k = choose|k: int| 0 <= k < y.len() && y[k] == key;
        assert((x + y)[x.len() + k] == key);
    }
    if (x + y).contains(key) {
        let k = choose|k: int| 0 <= k < (x + y).len() && (x + y)[k] == key;
        if k < x.len() {
            assert(x[k] == key);
        } else {
            assert(y[k - x.len()] == key);
        }
    }
}

/// Two findings are taken for the same exactly where rule, identity and path agree; a backslash in a
/// path counts as a slash.
pub proof fn keys_are_rule_path_and_identity(f: DiffFindingView, g: DiffFindingView)
    ensures
        key_of(f) == key_of(g) <==> f.finding.rule_id == g.finding.rule_id && f.identity
            == g.identity && replace_text(f.comparison_path, "\\"@, "/"@) == replace_text(
            g.comparison_path,
            "\\"@,
            "/"@,
        ),
{
}

/// A finding without a fingerprint is numbered by how many like it there are up to it.
pub proof fn findings_are_numbered_among_their_like(all: Seq<DiffFindingView>, key: KeyView, n: int)
    requires
        0 <= n <= all.len(),
    ensures
        occurrences(all, key, n) == all.take(n).filter(
            |f: DiffFindingView| !f.has_fingerprint && key_of(f) == key,
        ).len(),
        forall|i: int|
            0 <= i < all.len() ==> (#[trigger] all_numbered(all)[i]).finding == all[i].finding
                && all_numbered(all)[i].comparison_path == all[i].comparison_path,
        forall|i: int|
            0 <= i < all.len() && all[i].has_fingerprint ==> #[trigger] all_numbered(all)[i]
                == all[i],
        all_numbered(all).len() == all.len(),
    decreases n,
{
    let p = |f: DiffFindingView| !f.has_fingerprint && key_of(f) == key;
    if n > 0 {
        findings_are_numbered_among_their_like(all, key, n - 1);
        assert(all.take(n) =~= all.take(n - 1).push(all[n - 1]));
        all.take(n - 1).lemma_filter_push(all[n - 1], p);
    } else {
        reveal(Seq::filter);
        assert(all.take(0).filter(p).len() == 0);
    }
}

// ---------------------------------------------------------------------------
// Addresses
// ---------------------------------------------------------------------------

proof fn lemma_unescaped_rest(a: Seq<u8>, b: Seq<u8>, i: int)
    requires
        0 <= i,
    ensures
        unescaped(a + b, a.len() + i) == unescaped(b, i),
    decreases b.len() - i,
{
    let s = a + b;
    let at = a.len() + i;
    if i < b.len() {
        assert(s[at] == b[i]);
        if b[i] != 0x25 {
            lemma_unescaped_rest(a, b, i + 1);
        } else if i + 2 < b.len() {
            assert(s[at + 1] == b[i + 1] && s[at + 2] == b[i + 2]);
            lemma_unescaped_rest(a, b, i + 3);
        }
    }
}

/// Escapes are resolved from the left: a byte that begins none stands for itself, an escape for the
/// byte that its two digits write, and what follows is read in the same way. Anything else behind a
/// percent sign is no escape.
pub proof fn escapes_are_resolved_from_the_left(b: u8, high: u8, low: u8, rest: Seq<u8>)
    ensures
        b != 0x25 ==> unescaped(seq![b] + rest, 0) == match unescaped(rest, 0) {
            Some(r) => Some(seq![b] + r),
            None => None,
        },
        unescaped(seq![0x25u8, high, low] + rest, 0) == match (hex_value(high), hex_value(low)) {
            (Some(h), Some(l)) => match unescaped(rest, 0) {
                Some(r) => Some(seq![(h * 16 + l) as u8] + r),
                None => None,
            },
            _ => None,
        },
        unescaped(seq![0x25u8], 0) is None,
        unescaped(seq![0x25u8, high], 0) is None,
        unescaped(Seq::empty(), 0) == Some(Seq::<u8>::empty()),
{
    lemma_unescaped_rest(seq![b], rest, 0);
    lemma_unescaped_rest(seq![0x25u8, high, low], rest, 0);
    let s = seq![0x25u8, high, low] + rest;
    assert(s[0] == 0x25 && s[1] == high && s[2] == low);
    assert((seq![b] + rest)[0] == b);
}

/// The root that counts is one that the path lies under, and no longer one does; a path that lies
/// under some root has one.
pub proof fn the_longest_root_counts(roots: Seq<Seq<Seq<char>>>, names: Seq<Seq<char>>, n: int)
    requires
        0 <= n <= roots.len(),
    ensures
        match longest_root(roots, names, n) {
            Some(root) => {
                &&& root.is_prefix_of(names)
                &&& exists|i: int| 0 <= i < n && #[trigger] roots[i] == root
                &&& forall|i: int|
                    0 <= i < n && (#[trigger] roots[i]).is_prefix_of(names) ==> roots[i].len()
                        <= root.len()
            },
            None => forall|i: int| 0 <= i < n ==> !(#[trigger] roots[i]).is_prefix_of(names),
        },
    decreases n,
{
    if n > 0 {
        the_longest_root_counts(roots, names, n - 1);
        let before = longest_root(roots, names, n - 1);
        if let Some(root) = before {
            let i = choose|i: int| 0 <= i < n - 1 && #[trigger] roots[i] == root;
            assert(roots[i] == root);
        }
        assert(roots[n - 1] == roots[n - 1]);
    }
}

/// The base of a name is that of the first entry with it, and only a name that no entry has is
/// unknown.
pub proof fn bases_are_found_by_name(
    bases: Seq<(Seq<char>, Seq<Seq<char>>)>,
    id: Seq<char>,
    k: int,
)
    requires
        0 <= k <= bases.len(),
        forall|i: int| 0 <= i < k ==> (#[trigger] bases[i]).0 != id,
        k < bases.len() ==> bases[k].0 == id,
    ensures
        k < bases.len() ==> base_from(bases, id, 0) == Some(bases[k].1),
        k == bases.len() ==> base_from(bases, id, 0) is None,
{
    lemma_base(bases, id, 0, k);
}

proof fn lemma_base(bases: Seq<(Seq<char>, Seq<Seq<char>>)>, id: Seq<char>, i: int, k: int)
    requires
        0 <= i <= k <= bases.len(),
        forall|j: int| i <= j < k ==> (#[trigger] bases[j]).0 != id,
        k < bases.len() ==> bases[k].0 == id,
    ensures
        k < bases.len() ==> base_from(bases, id, i) == Some(bases[k].1),
        k == bases.len() ==> base_from(bases, id, i) is None,
    decreases k - i,
{
    if i < k {
        assert(bases[i].0 != id);
        lemma_base(bases, id, i + 1, k);
    }
}

/// A run has one base for each entry, under its name, in their order, and none that is not an
/// absolute address.
pub proof fn every_entry_is_a_base(entries: Seq<(Node, Node)>, n: int)
    requires
        0 <= n <= entries.len(),
    ensures
        bases_of(entries, n) matches Ok(bases) ==> {
            &&& bases.len() == n
            &&& forall|i: int|
                0 <= i < n ==> (#[trigger] bases[i]).0 == crate::engine::codeql_diff::entry_name(
                    entries[i],
                ) && crate::engine::codeql_diff::base_of(entries[i]) == Ok::<_, Seq<char>>(
                    bases[i].1,
                )
        },
        bases_of(entries, n) is Ok <==> forall|i: int|
            0 <= i < n ==> crate::engine::codeql_diff::base_of(#[trigger] entries[i]) is Ok,
    decreases n,
{
    if n > 0 {
        every_entry_is_a_base(entries, n - 1);
        if let Ok(bases) = bases_of(entries, n) {
            let before = bases_of(entries, n - 1)->Ok_0;
            assert forall|i: int| 0 <= i < n implies (#[trigger] bases[i]).0
                == crate::engine::codeql_diff::entry_name(entries[i])
                && crate::engine::codeql_diff::base_of(entries[i]) == Ok::<_, Seq<char>>(
                bases[i].1,
            ) by {
                if i < n - 1 {
                    assert(bases[i] == before[i]);
                }
            }
        }
    }
}

// ---------------------------------------------------------------------------
// Rule files
// ---------------------------------------------------------------------------

proof fn lemma_rules_of_prefix(
    a: Seq<Node>,
    b: Seq<Node>,
    n: int,
    path: Seq<char>,
    directory: Seq<char>,
    env: Option<Seq<char>>,
)
    requires
        0 <= n <= a.len(),
        n <= b.len(),
        forall|i: int| 0 <= i < n ==> a[i] == b[i],
    ensures
        rules_of(a, n, path, directory, env) == rules_of(b, n, path, directory, env),
    decreases n,
{
    if n > 0 {
        lemma_rules_of_prefix(a, b, n - 1, path, directory, env);
    }
}

/// Every entry of a rule file that is for this engine is a rule or has a notice, and entries for
/// others have neither: a rule is there exactly where some entry writes it down, and a notice exactly
/// where some entry is malformed, with its position.
pub proof fn every_entry_is_a_rule_or_has_a_notice(
    entries: Seq<Node>,
    n: int,
    path: Seq<char>,
    directory: Seq<char>,
    env: Option<Seq<char>>,
    rule: RuleView,
    notice: Seq<char>,
)
    requires
        0 <= n <= entries.len(),
    ensures
        ({
            let (rules, notices) = rules_of(entries, n, path, directory, env);
            &&& rules.len() + notices.len() == entries.take(n).filter(
                |e: Node| for_codeql(e),
            ).len()
            &&& rules.contains(rule) <==> exists|i: int|
                0 <= i < n && for_codeql(#[trigger] entries[i]) && rule_of(
                    entries[i],
                    directory,
                    env,
                ) == Ok::<_, Seq<char>>(rule)
            &&& notices.contains(notice) <==> exists|i: int|
                0 <= i < n && for_codeql(#[trigger] entries[i]) && (rule_of(
                    entries[i],
                    directory,
                    env,
                ) matches Err(e) && notice == skip_notice(entries[i], path, (i + 1) as nat, e))
        }),
    decreases n,
{
    let p = |e: Node| for_codeql(e);
    if n > 0 {
        every_entry_is_a_rule_or_has_a_notice(entries, n - 1, path, directory, env, rule, notice);
        assert(entries.take(n) =~= entries.take(n - 1).push(entries[n - 1]));
        entries.take(n - 1).lemma_filter_push(entries[n - 1], p);
        let (rules, notices) = rules_of(entries, n - 1, path, directory, env);
        let (more, said) = rules_of(entries, n, path, directory, env);
        let x = entries[n - 1];
        if rules.contains(rule) {
            let k = choose|k: int| 0 <= k < rules.len() && rules[k] == rule;
            assert(more[k] == rule);
        }
        if notices.contains(notice) {
            let k = choose|k: int| 0 <= k < notices.len() && notices[k] == notice;
            assert(said[k] == notice);
        }
        if more.contains(rule) && !rules.contains(rule) {
            let k = choose|k: int| 0 <= k < more.len() && more[k] == rule;
            if k < rules.len() {
                assert(rules[k] == rule);
            }
            assert(for_codeql(entries[n - 1]));
        }
        if said.contains(notice) && !notices.contains(notice) {
            let k = choose|k: int| 0 <= k < said.len() && said[k] == notice;
            if k < notices.len() {
                assert(notices[k] == notice);
            }
            assert(for_codeql(entries[n - 1]));
        }
        if for_codeql(x) {
            match rule_of(x, directory, env) {
                Ok(r) => {
                    assert(more[rules.len() as int] == r);
                },
                Err(e) => {
                    assert(said[notices.len() as int] == skip_notice(x, path, n as nat, e));
                },
            }
        }
    } else {
        reveal(Seq::filter);
        assert(entries.take(0).filter(p).len() == 0);
    }
}

proof fn lemma_fields_keep(entries: Seq<(Node, Node)>, n: int, k: int)
    requires
        0 <= k < n <= entries.len(),
        fields_of(entries, n) is Ok,
    ensures
        ({
            let fields = fields_of(entries, n)->Ok_0;
            let name = entries[k].0.text();
            let value = entries[k].1;
            &&& name is Some
            &&& name == Some("id"@) ==> fields.id is Some && value.text() == fields.id
            &&& name == Some("message"@) ==> fields.message is Some && value.text()
                == fields.message
            &&& name == Some("query"@) ==> fields.query is Some && value.text() == fields.query
            &&& name == Some("severity"@) ==> fields.severity is Some && severity_value(value)
                == Ok::<_, Seq<char>>(fields.severity.unwrap())
            &&& name == Some("database"@) ==> fields.database is Some && optional_value(value)
                == Ok::<_, Seq<char>>(fields.database.unwrap())
            &&& name == Some("metadata"@) ==> fields.metadata is Some
                && crate::engine::codeql::metadata_value(value) == Ok::<_, Seq<char>>(
                fields.metadata.unwrap(),
            )
        }),
    decreases n,
{
    reveal_strlit("id");
    reveal_strlit("message");
    reveal_strlit("query");
    reveal_strlit("severity");
    reveal_strlit("database");
    reveal_strlit("metadata");
    reveal_strlit("engine");
    assert("id"@.len() == 2 && "message"@.len() == 7 && "query"@.len() == 5 && "severity"@.len()
        == 8 && "database"@.len() == 8 && "metadata"@.len() == 8 && "engine"@.len() == 6);
    assert("severity"@[0] == 's' && "database"@[0] == 'd' && "metadata"@[0] == 'm');
    let before = fields_of(entries, n - 1)->Ok_0;
    assert(fields_of(entries, n - 1) is Ok);
    let name = crate::engine::codeql::field_name(entries[n - 1].0)->Ok_0;
    assert(with_field(before, name, entries[n - 1].1) is Ok);
    if k < n - 1 {
        lemma_fields_keep(entries, n - 1, k);
    }
}

/// A rule holds what its entry writes down under each name, wherever it stands there.
pub proof fn rules_hold_what_is_written_down(
    entries: Vec<(Node, Node)>,
    directory: Seq<char>,
    env: Option<Seq<char>>,
    k: int,
)
    requires
        rule_of(Node::Table(entries), directory, env) is Ok,
        0 <= k < entries@.len(),
    ensures
        ({
            let rule = rule_of(Node::Table(entries), directory, env)->Ok_0;
            let name = entries@[k].0.text();
            let value = entries@[k].1;
            &&& name == Some("id"@) ==> value.text() == Some(rule.id)
            &&& name == Some("message"@) ==> value.text() == Some(rule.message)
            &&& name == Some("severity"@) ==> severity_value(value) == Ok::<_, Seq<char>>(
                rule.severity,
            )
            &&& name == Some("query"@) ==> value.text() is Some && rule.query
                == crate::paths::joined_path(directory, value.text().unwrap())
            &&& name == Some("metadata"@) ==> crate::engine::codeql::metadata_value(value) == Ok::<
                _,
                Seq<char>,
            >(rule.cwe)
        }),
{
    lemma_fields_keep(entries@, entries@.len() as int, k);
}

/// All rules of all files that could be read are there, in the order of the files, and each file's
/// notices, or the reason why it could not be read, too.
pub proof fn files_are_loaded_one_after_the_other(a: Seq<RuleFile>, b: Seq<RuleFile>, file: RuleFile)
    ensures
        strict_rules(a + b, (a + b).len() as int) == strict_rules(a, a.len() as int) + strict_rules(
            b,
            b.len() as int,
        ),
        loaded_notices(a + b, (a + b).len() as int) == loaded_notices(a, a.len() as int)
            + loaded_notices(b, b.len() as int),
        strict_rules(seq![file], 1) == match file.outcome {
            Ok(pair) => pair.0@,
            Err(_) => Seq::empty(),
        },
        loaded_notices(seq![file], 1) == match file.outcome {
            Ok(pair) => texts(pair.1@),
            Err(e) => seq!["Warning: "@ + e@],
        },
    decreases b.len(),
{
    let none = strict_rules(seq![file], 0);
    let silence = loaded_notices(seq![file], 0);
    match file.outcome {
        Ok(pair) => {
            assert(none + pair.0@ =~= pair.0@);
            assert(silence + texts(pair.1@) =~= texts(pair.1@));
        },
        Err(e) => {
            assert(silence.push("Warning: "@ + e@) =~= seq!["Warning: "@ + e@]);
        },
    }
    let n = a.len() as int;
    let m = b.len() as int;
    if m == 0 {
        assert(a + b =~= a);
        assert(strict_rules(a, n) + strict_rules(b, 0) =~= strict_rules(a, n));
        assert(loaded_notices(a, n) + loaded_notices(b, 0) =~= loaded_notices(a, n));
    } else {
        let t = b.drop_last();
        files_are_loaded_one_after_the_other(a, t, file);
        lemma_load_prefix(a + t, a + b, n + m - 1);
        lemma_load_prefix(t, b, m - 1);
        assert((a + b)[n + m - 1] == b[m - 1]);
        let x = strict_rules(a, n);
        let y = strict_rules(t, m - 1);
        let u = loaded_notices(a, n);
        let v = loaded_notices(t, m - 1);
        match b[m - 1].outcome {
            Ok(pair) => {
                assert(x + y + pair.0@ =~= x + (y + pair.0@));
                assert(u + v + texts(pair.1@) =~= u + (v + texts(pair.1@)));
            },
            Err(e) => {
                assert((u + v).push("Warning: "@ + e@) =~= u + v.push("Warning: "@ + e@));
            },
        }
    }
}

proof fn lemma_load_prefix(a: Seq<RuleFile>, b: Seq<RuleFile>, n: int)
    requires
        0 <= n <= a.len(),
        n <= b.len(),
        forall|i: int| 0 <= i < n ==> a[i] == b[i],
    ensures
        strict_rules(a, n) == strict_rules(b, n),
        loaded_notices(a, n) == loaded_notices(b, n),
    decreases n,
{
    if n > 0 {
        lemma_load_prefix(a, b, n - 1);
    }
}

/// Rules are loaded for a comparison only where every file could be read without a notice and every
/// query exists; the first file or query that stands against it is the one that is named.
pub proof fn strict_loading_names_the_first_fault(
    files: Seq<RuleFile>,
    rules: Seq<CodeQlRule>,
    existing: Seq<Seq<char>>,
)
    ensures
        strict_error(files, files.len() as int) is None <==> forall|i: int|
            0 <= i < files.len() ==> ((#[trigger] files[i]).outcome matches Ok(pair)
                && pair.1@.len() == 0),
        match without_query(rules, existing, rules.len() as int) {
            None => forall|i: int|
                0 <= i < rules.len() ==> existing.contains((#[trigger] rules[i]).query@),
            Some(rule) => exists|i: int|
                {
                    &&& 0 <= i < rules.len()
                    &&& #[trigger] rules[i] == rule
                    &&& !existing.contains(rule.query@)
                    &&& forall|j: int| 0 <= j < i ==> existing.contains((#[trigger] rules[j]).query@)
                },
        },
{
    lemma_strict(files, files.len() as int);
    lemma_without(rules, existing, rules.len() as int);
}

proof fn lemma_strict(files: Seq<RuleFile>, n: int)
    requires
        0 <= n <= files.len(),
    ensures
        strict_error(files, n) is None <==> forall|i: int|
            0 <= i < n ==> ((#[trigger] files[i]).outcome matches Ok(pair) && pair.1@.len() == 0),
    decreases n,
{
    if n > 0 {
        lemma_strict(files, n - 1);
        if strict_error(files, n) is None {
            assert forall|i: int| 0 <= i < n implies ((#[trigger] files[i]).outcome matches Ok(pair)
                && pair.1@.len() == 0) by {}
        } else if forall|i: int|
            0 <= i < n ==> ((#[trigger] files[i]).outcome matches Ok(pair) && pair.1@.len() == 0) {
            assert(files[n - 1].outcome is Ok);
        }
    }
}

proof fn lemma_without(rules: Seq<CodeQlRule>, existing: Seq<Seq<char>>, n: int)
    requires
        0 <= n <= rules.len(),
    ensures
        match without_query(rules, existing, n) {
            None => forall|i: int|
                0 <= i < n ==> existing.contains((#[trigger] rules[i]).query@),
            Some(rule) => exists|i: int|
                {
                    &&& 0 <= i < n
                    &&& #[trigger] rules[i] == rule
                    &&& !existing.contains(rule.query@)
                    &&& forall|j: int| 0 <= j < i ==> existing.contains((#[trigger] rules[j]).query@)
                },
        },
    decreases n,
{
    if n > 0 {
        lemma_without(rules, existing, n - 1);
        if let Some(rule) = without_query(rules, existing, n - 1) {
            let i = choose|i: int|
                {
                    &&& 0 <= i < n - 1
                    &&& #[trigger] rules[i] == rule
                    &&& !existing.contains(rule.query@)
                    &&& forall|j: int| 0 <= j < i ==> existing.contains((#[trigger] rules[j]).query@)
                };
            assert(rules[i] == rule);
        } else if !existing.contains(rules[n - 1].query@) {
            assert(rules[n - 1] == rules[n - 1]);
        }
    }
}

/// The ids of rules are listed once each: an id is there exactly where some rule has it.
pub proof fn ids_are_listed_once(rules: Seq<CodeQlRule>, n: int, id: Seq<char>)
    requires
        0 <= n <= rules.len(),
    ensures
        distinct_ids(rules, n).no_duplicates(),
        distinct_ids(rules, n).contains(id) <==> exists|i: int|
            0 <= i < n && (#[trigger] rules[i]).id@ == id,
    decreases n,
{
    if n > 0 {
        ids_are_listed_once(rules, n - 1, id);
        let before = distinct_ids(rules, n - 1);
        let now = distinct_ids(rules, n);
        let x = rules[n - 1].id@;
        if !before.contains(x) {
            assert forall|i: int, j: int|
                0 <= i < now.len() && 0 <= j < now.len() && i != j implies now[i] != now[j] by {
                if i < before.len() {
                    assert(before.contains(before[i]));
                }
                if j < before.len() {
                    assert(before.contains(before[j]));
                }
            }
            assert(now[before.len() as int] == x);
        }
        if before.contains(id) {
            let k = choose|k: int| 0 <= k < before.len() && before[k] == id;
            assert(now[k] == id);
        }
        if now.contains(id) && !before.contains(id) {
            let k = choose|k: int| 0 <= k < now.len() && now[k] == id;
            if k < before.len() {
                assert(before[k] == id);
            }
            assert(rules[n - 1].id@ == id);
        }
    }
}

} // verus!
