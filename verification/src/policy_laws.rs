//! What holds of the findings that are reported, selected and counted: none that qualifies is left
//! out, wherever it stands, and none that does not is let in.

use crate::adapter::{
    answer_findings, comment_mark, diff_of, filter_for, refers_to, scan_of, secrets_of, selection,
    workspace_path, AdapterFindingRef, AdapterRequest, RunResult,
};
use crate::compliance::{
    about_agility, about_pq, agility_count, level_of, pq_count, with_deadline,
};
use crate::finding::{Finding, FindingView, Severity};
use crate::pr_policy::{
    at_or_above, blocking_count, decide, merged, PrBlockingThreshold, PrSecurityPolicy,
    PrSecurityPolicyInput,
};
use crate::text::{after_last_char, contains_text, lower_text, opt_text};
use vstd::prelude::*;

verus! {

// ---------------------------------------------------------------------------
// Thresholds
// ---------------------------------------------------------------------------

/// The severity is the threshold or worse.
pub open spec fn reaches_threshold(severity: Severity, threshold: Severity) -> bool {
    match threshold {
        Severity::Low => true,
        Severity::Medium => !(severity is Low),
        Severity::High => severity is High || severity is Critical,
        Severity::Critical => severity is Critical,
    }
}

/// Each finding that reaches the threshold is kept as often as it was found, and no other is: how many
/// there are before it or behind it does not matter, and those that are kept stay in order.
pub proof fn findings_at_the_threshold_are_kept(
    findings: Seq<Finding>,
    threshold: Severity,
    f: Finding,
)
    ensures
        at_or_above(findings, threshold).to_multiset().count(f) == if reaches_threshold(
            f.severity,
            threshold,
        ) {
            findings.to_multiset().count(f)
        } else {
            0
        },
        at_or_above(findings.push(f), threshold) == if reaches_threshold(f.severity, threshold) {
            at_or_above(findings, threshold).push(f)
        } else {
            at_or_above(findings, threshold)
        },
    decreases findings.len(),
{
    broadcast use vstd::seq_lib::group_to_multiset_ensures;

    let p = |f: Finding| f.severity.rank() >= threshold.rank();
    findings.lemma_filter_push(f, p);
    if findings.len() > 0 {
        let t = findings.drop_last();
        let last = findings.last();
        findings_at_the_threshold_are_kept(t, threshold, f);
        t.lemma_filter_push(last, p);
        assert(findings =~= t.push(last));
    } else {
        reveal(Seq::filter);
        assert(findings.filter(p) =~= findings);
        assert(findings =~= Seq::<Finding>::empty());
    }
}

/// Some finding reaches the threshold.
pub open spec fn some_reaches(findings: Seq<Finding>, threshold: Severity) -> bool {
    exists|i: int|
        0 <= i < findings.len() && reaches_threshold((#[trigger] findings[i]).severity, threshold)
}

proof fn lemma_some_kept(findings: Seq<Finding>, threshold: Severity)
    ensures
        at_or_above(findings, threshold).len() > 0 <==> some_reaches(findings, threshold),
{
    let p = |f: Finding| f.severity.rank() >= threshold.rank();
    let kept = findings.filter(p);
    if kept.len() > 0 {
        findings.lemma_filter_pred(p, 0);
        findings.lemma_filter_contains_rev(p, kept[0]);
        let i = choose|i: int| 0 <= i < findings.len() && findings[i] == kept[0];
        assert(reaches_threshold(findings[i].severity, threshold));
    }
    if some_reaches(findings, threshold) {
        let i = choose|i: int|
            0 <= i < findings.len() && reaches_threshold(
                (#[trigger] findings[i]).severity,
                threshold,
            );
        findings.lemma_filter_contains(p, i);
        assert(kept.contains(findings[i]));
    }
}

/// A policy passes where nothing is reported, fails where a reported finding blocks, and is neutral
/// otherwise. It blocks from the severity that its threshold names, and never where that is none.
pub proof fn decisions_follow_the_findings(policy: PrSecurityPolicy, reported: Seq<Finding>)
    ensures
        (decide(policy, reported) is Pass) <==> reported.len() == 0,
        (decide(policy, reported) is Fail) <==> match policy.blocking_threshold {
            PrBlockingThreshold::Never => false,
            PrBlockingThreshold::Low => some_reaches(reported, Severity::Low),
            PrBlockingThreshold::Medium => some_reaches(reported, Severity::Medium),
            PrBlockingThreshold::High => some_reaches(reported, Severity::High),
            PrBlockingThreshold::Critical => some_reaches(reported, Severity::Critical),
        },
        decide(policy, reported).code() == 1 <==> decide(policy, reported) is Fail,
{
    lemma_some_kept(reported, Severity::Low);
    lemma_some_kept(reported, Severity::Medium);
    lemma_some_kept(reported, Severity::High);
    lemma_some_kept(reported, Severity::Critical);
    if reported.len() == 0 {
        assert(!some_reaches(reported, Severity::Low));
    }
}

/// Each value of a policy comes from the override where it gives one, else from what is configured
/// where that gives one; the one value does not decide on another.
pub proof fn overrides_come_before_configured_values(
    configured: Option<PrSecurityPolicyInput>,
    overrides: PrSecurityPolicyInput,
)
    ensures
        ({
            let policy = merged(configured, overrides);
            &&& overrides.reporting_threshold matches Some(s) ==> policy.reporting_threshold == s
            &&& overrides.blocking_threshold matches Some(b) ==> policy.blocking_threshold == b
            &&& overrides.reporting_threshold is None ==> (configured matches Some(c) ==> (
            c.reporting_threshold matches Some(s) ==> policy.reporting_threshold == s))
            &&& overrides.blocking_threshold is None ==> (configured matches Some(c) ==> (
            c.blocking_threshold matches Some(b) ==> policy.blocking_threshold == b))
            &&& overrides.reporting_threshold is None && (configured is None
                || configured.unwrap().reporting_threshold is None) ==> policy.reporting_threshold
                == Severity::Medium
            &&& overrides.blocking_threshold is None && (configured is None
                || configured.unwrap().blocking_threshold is None) ==> policy.blocking_threshold
                == PrBlockingThreshold::High
        }),
{
}

// ---------------------------------------------------------------------------
// Selections and answers
// ---------------------------------------------------------------------------

/// A reference picks out every finding that agrees with it in all that it gives, and no other: rule,
/// line and column as they are, the file by its end.
pub proof fn references_pick_out_what_agrees(
    findings: Seq<Finding>,
    selector: AdapterFindingRef,
    f: Finding,
)
    ensures
        selection(findings, Some(selector)).to_multiset().count(f) == if (selector.rule_id is None
            || selector.rule_id.unwrap()@ == f.rule_id@) && (selector.file is None || (exists|
            dir: Seq<char>,
        | #[trigger]
            (dir + selector.file.unwrap()@) == f.file@)) && (selector.line is None
            || selector.line.unwrap() == f.line) && (selector.column is None
            || selector.column.unwrap() == f.column) {
            findings.to_multiset().count(f)
        } else {
            0
        },
        selection(findings, None) == findings,
{
    if let Some(file) = selector.file {
        if file@.is_suffix_of(f.file@) {
            let n = f.file@.len() - file@.len();
            let dir = f.file@.take(n);
            assert(dir + file@ =~= f.file@);
        }
        if exists|dir: Seq<char>| #[trigger] (dir + file@) == f.file@ {
            let dir = choose|dir: Seq<char>| #[trigger] (dir + file@) == f.file@;
            assert(file@ =~= f.file@.subrange(
                f.file@.len() - file@.len(),
                f.file@.len() as int,
            ));
        }
    }
    lemma_selected(findings, selector, f);
}

proof fn lemma_selected(findings: Seq<Finding>, selector: AdapterFindingRef, f: Finding)
    ensures
        selection(findings, Some(selector)).to_multiset().count(f) == if refers_to(selector, f) {
            findings.to_multiset().count(f)
        } else {
            0
        },
    decreases findings.len(),
{
    broadcast use vstd::seq_lib::group_to_multiset_ensures;

    let p = |f: Finding| refers_to(selector, f);
    if findings.len() > 0 {
        let t = findings.drop_last();
        lemma_selected(t, selector, f);
        t.lemma_filter_push(findings.last(), p);
        assert(findings =~= t.push(findings.last()));
    } else {
        reveal(Seq::filter);
        assert(findings.filter(p) =~= findings);
        assert(findings =~= Seq::<Finding>::empty());
    }
}

/// An answer holds every finding of the run that its policy reports, as often as it was found; without
/// a policy, and in a search for secrets, all of them. Only an explanation leaves out findings that it
/// does not refer to.
pub proof fn answers_hold_every_reported_finding(
    request: AdapterRequest,
    run: RunResult,
    f: Finding,
)
    requires
        !(request.command is Explain),
    ensures
        request.command is Secrets || run.pr_security_policy is None ==> answer_findings(
            request,
            run,
        ) == run.findings@,
        !(request.command is Secrets) ==> (run.pr_security_policy matches Some(policy) ==> (
        answer_findings(request, run).to_multiset().count(f) == if reaches_threshold(
            f.severity,
            policy.reporting_threshold,
        ) {
            run.findings@.to_multiset().count(f)
        } else {
            0
        })),
{
    if let Some(policy) = run.pr_security_policy {
        findings_at_the_threshold_are_kept(run.findings@, policy.reporting_threshold, f);
    }
}

/// A path that begins at a root is taken as it is; any other is taken from the root of the workspace
/// where there is one, with one slash between them.
pub proof fn paths_are_taken_from_the_workspace(path: Seq<char>, root: Seq<char>, file: Seq<char>)
    requires
        root.len() > 0,
        root != "."@,
        root.last() != '/',
        root.last() != '\\',
        !crate::adapter::absolute_path(path),
        path != "."@,
        path.len() < 2 || path[0] != '.' || path[1] != '/',
        file.len() > 0,
        file[0] == '/',
    ensures
        workspace_path(path, Some(root)) == root + "/"@ + path,
        workspace_path(path, Some(root + "/"@)) == root + "/"@ + path,
        workspace_path(path, None) == path,
        workspace_path(file, Some(root)) == file,
        workspace_path("."@, Some(root)) == root,
{
    reveal_strlit(".");
    reveal_strlit("/");
    assert("/"@ =~= seq!['/']);
    crate::adapter::slashes_at_the_end_are_dropped(root, Seq::empty());
    crate::adapter::slashes_at_the_end_are_dropped(root, "/"@);
    assert(root + Seq::<char>::empty() =~= root);
    crate::adapter::steps_to_the_same_place_are_dropped(path);
    assert((root + "/"@).len() > 1);
    assert("."@.len() == 1);
    assert(file[0] != "."@[0]);
}

// ---------------------------------------------------------------------------
// Migration levels
// ---------------------------------------------------------------------------

proof fn lemma_counts(findings: Seq<FindingView>)
    ensures
        pq_count(findings) > 0 <==> exists|i: int|
            0 <= i < findings.len() && about_pq(#[trigger] findings[i]),
        agility_count(findings) > 0 <==> exists|i: int|
            0 <= i < findings.len() && about_agility(#[trigger] findings[i]),
{
    let p = |f: FindingView| about_pq(f);
    let q = |f: FindingView| about_agility(f);
    let x = findings.filter(p);
    let y = findings.filter(q);
    if x.len() > 0 {
        findings.lemma_filter_pred(p, 0);
        findings.lemma_filter_contains_rev(p, x[0]);
        let i = choose|i: int| 0 <= i < findings.len() && findings[i] == x[0];
        assert(about_pq(findings[i]));
    }
    if y.len() > 0 {
        findings.lemma_filter_pred(q, 0);
        findings.lemma_filter_contains_rev(q, y[0]);
        let i = choose|i: int| 0 <= i < findings.len() && findings[i] == y[0];
        assert(about_agility(findings[i]));
    }
    if exists|i: int| 0 <= i < findings.len() && about_pq(#[trigger] findings[i]) {
        let i = choose|i: int| 0 <= i < findings.len() && about_pq(#[trigger] findings[i]);
        findings.lemma_filter_contains(p, i);
        assert(x.contains(findings[i]));
    }
    if exists|i: int| 0 <= i < findings.len() && about_agility(#[trigger] findings[i]) {
        let i = choose|i: int| 0 <= i < findings.len() && about_agility(#[trigger] findings[i]);
        findings.lemma_filter_contains(q, i);
        assert(y.contains(findings[i]));
    }
}

/// The level falls with what is found: it is the highest only where no finding has a deadline or is
/// about an algorithm that is fixed in the code, the next one where none but these is found, and
/// further findings never raise it.
pub proof fn levels_fall_with_what_is_found(findings: Seq<FindingView>, f: FindingView)
    ensures
        ({
            let level = level_of(pq_count(findings), agility_count(findings)).0;
            let more = level_of(pq_count(findings.push(f)), agility_count(findings.push(f))).0;
            &&& level == 5 <==> forall|i: int|
                0 <= i < findings.len() ==> (#[trigger] findings[i]).cnsa2_deadline is None
                    && !contains_text(findings[i].rule_id, "hardcoded-crypto-algorithm"@)
            &&& level >= 4 <==> forall|i: int|
                0 <= i < findings.len() ==> (#[trigger] findings[i]).cnsa2_deadline is None
                    || contains_text(findings[i].rule_id, "hardcoded-crypto-algorithm"@)
            &&& more <= level
            &&& 2 <= level <= 5
        }),
{
    lemma_counts(findings);
    let p = |f: FindingView| about_pq(f);
    let q = |f: FindingView| about_agility(f);
    findings.lemma_filter_push(f, p);
    findings.lemma_filter_push(f, q);
    let level = level_of(pq_count(findings), agility_count(findings)).0;
    if exists|i: int| 0 <= i < findings.len() && about_pq(#[trigger] findings[i]) {
        let i = choose|i: int| 0 <= i < findings.len() && about_pq(#[trigger] findings[i]);
        assert(findings[i].cnsa2_deadline is Some);
    }
    if exists|i: int| 0 <= i < findings.len() && about_agility(#[trigger] findings[i]) {
        let i = choose|i: int| 0 <= i < findings.len() && about_agility(#[trigger] findings[i]);
        assert(contains_text(findings[i].rule_id, "hardcoded-crypto-algorithm"@));
    }
    if level != 5 {
        assert(exists|i: int|
            0 <= i < findings.len() && (about_pq(#[trigger] findings[i]) || about_agility(
                findings[i],
            )));
    }
    assert forall|i: int| 0 <= i < findings.len() && level == 5 implies (
    #[trigger] findings[i]).cnsa2_deadline is None && !contains_text(
        findings[i].rule_id,
        "hardcoded-crypto-algorithm"@,
    ) by {
        assert(!about_pq(findings[i]) && !about_agility(findings[i]));
    }
    assert forall|i: int| 0 <= i < findings.len() && level >= 4 implies (
    #[trigger] findings[i]).cnsa2_deadline is None || contains_text(
        findings[i].rule_id,
        "hardcoded-crypto-algorithm"@,
    ) by {
        assert(!about_pq(findings[i]));
    }
}

/// A code base with up to five vulnerable uses stands above one with more.
pub proof fn few_vulnerable_uses_stand_above_many(few: nat, many: nat, agility: nat, other: nat)
    requires
        0 < few <= 5,
        many > 5,
    ensures
        level_of(few, agility).0 > level_of(many, other).0,
        level_of(0, agility).0 > level_of(few, other).0,
        level_of(few, agility) == level_of(few, other),
        level_of(many, agility) == level_of(many, other),
{
}

/// Nothing but its deadline changes of a finding, and that is its rule's alone: findings of one rule
/// have one deadline.
pub proof fn deadlines_are_those_of_the_rule(f: FindingView, g: FindingView)
    requires
        f.rule_id == g.rule_id,
    ensures
        with_deadline(f).cnsa2_deadline == with_deadline(g).cnsa2_deadline,
        with_deadline(f).rule_id == f.rule_id && with_deadline(f).severity == f.severity
            && with_deadline(f).file == f.file && with_deadline(f).line == f.line
            && with_deadline(f).description == f.description && with_deadline(f).tags == f.tags,
        contains_text(f.rule_id, "pq-vulnerable"@) ==> with_deadline(f).cnsa2_deadline == Some(
            "2027-01"@,
        ),
        !contains_text(f.rule_id, "pq-vulnerable"@) && contains_text(
            f.rule_id,
            "hardcoded-crypto-algorithm"@,
        ) ==> with_deadline(f).cnsa2_deadline == Some("2035"@),
{
}

// ---------------------------------------------------------------------------
// What a request asks for
// ---------------------------------------------------------------------------

/// A scan is asked for as the request has it: its severity, exclusions, changes, confidence and size
/// limit, with its files taken from the workspace; it is quiet and answers in JSON, and changes
/// nothing.
pub proof fn scans_are_asked_for_as_requested(
    request: AdapterRequest,
    path: Seq<char>,
    explain: bool,
    pq_mode: bool,
)
    ensures
        ({
            let args = scan_of(request, path, explain, pq_mode);
            &&& args.path == path
            &&& args.exclude.len() == request.exclude@.len()
            &&& forall|i: int|
                0 <= i < args.exclude.len() ==> #[trigger] args.exclude[i] == request.exclude@[i]@
            &&& (args.severity is None) == (request.severity is None)
            &&& args.no_builtins == request.no_builtins
            &&& args.min_confidence == request.min_confidence
            &&& args.changes.staged == (request.change_mode is Staged)
            &&& args.changes.unstaged == (request.change_mode is Unstaged)
            &&& args.changes.all_changes == (request.change_mode is AllChanges)
            &&& request.max_file_size matches Some(n) ==> args.max_file_size == n
            &&& args.explain == (explain || request.explain || pq_mode)
            &&& args.pq_mode == pq_mode
            &&& args.format is Json
            &&& args.quiet && !args.fix
            &&& args.write_baseline is None && args.output is None
            &&& args.pr_security_policy.pr_policy == (request.pr_security_policy is Some)
        }),
{
}

/// The files that a request names are taken from its workspace, each for what it is.
pub proof fn requested_files_are_taken_from_the_workspace(
    request: AdapterRequest,
    path: Seq<char>,
    base: Seq<char>,
)
    ensures
        ({
            let root = opt_text(request.workspace_root);
            let scan = scan_of(request, path, false, false);
            let diff = diff_of(request, path, base);
            let secrets = secrets_of(request);
            &&& request.config matches Some(f) ==> scan.config == Some(workspace_path(f@, root))
                && diff.config == scan.config && secrets.config == scan.config
            &&& request.rules matches Some(f) ==> scan.rules == Some(workspace_path(f@, root))
                && diff.rules == scan.rules
            &&& request.baseline matches Some(f) ==> scan.baseline == Some(
                workspace_path(f@, root),
            ) && secrets.baseline == scan.baseline
            &&& request.codeql_base_db matches Some(f) ==> diff.codeql_base_db == Some(
                workspace_path(f@, root),
            )
            &&& request.codeql_head_db matches Some(f) ==> diff.codeql_head_db == Some(
                workspace_path(f@, root),
            )
            &&& request.config is None ==> scan.config is None
            &&& request.rules is None ==> scan.rules is None
            &&& request.baseline is None ==> scan.baseline is None
            &&& diff.target == base
            &&& diff.path == workspace_path(path, root)
            &&& diff.max_file_size == scan.max_file_size && secrets.max_file_size
                == scan.max_file_size
            &&& secrets.exclude_paths == scan.exclude
            &&& secrets.changes == scan.changes
            &&& diff.severity == scan.severity
            &&& diff.pr_security_policy == scan.pr_security_policy
        }),
{
}

/// The filter for a severity is the one of its name.
pub proof fn severities_are_filtered_by_their_own(a: Severity, b: Severity)
    ensures
        filter_for(a) == filter_for(b) <==> a == b,
        (a is Critical) == (filter_for(a) is Critical) && (a is High) == (filter_for(a) is High)
            && (a is Medium) == (filter_for(a) is Medium) && (a is Low) == (filter_for(a) is Low),
{
}

/// A comment in a file begins as comments do in the language of its ending: the ending counts, in
/// small letters or capitals, and not the rest of the path.
pub proof fn comments_are_marked_by_the_ending(dir: Seq<char>, other: Seq<char>, ending: Seq<char>)
    requires
        !ending.contains('.'),
    ensures
        comment_mark(dir.push('.') + ending) == comment_mark(other.push('.') + ending),
        comment_mark(dir.push('.') + lower_text(ending)) == comment_mark(dir.push('.') + ending),
{
    lemma_ending(dir, ending);
    lemma_ending(other, ending);
    lemma_ending(dir, lower_text(ending));
    assert(lower_text(lower_text(ending)) =~= lower_text(ending));
}

proof fn lemma_ending(dir: Seq<char>, ending: Seq<char>)
    requires
        !lower_text(ending).contains('.') || !ending.contains('.'),
    ensures
        after_last_char(lower_text(dir.push('.') + ending), '.') == Some(lower_text(ending)),
{
    let low = lower_text(ending);
    assert(!low.contains('.')) by {
        if !ending.contains('.') {
            assert forall|i: int| 0 <= i < low.len() implies low[i] != '.' by {
                assert(ending.contains(ending[i]));
            }
        }
    }
    assert(lower_text(dir.push('.') + ending) =~= lower_text(dir).push('.') + low);
    crate::text_laws::the_last_occurrence_counts(lower_text(dir), low, '.');
}

/// Every reported finding that reaches the blocking threshold is counted, once, wherever it stands,
/// and no other is.
pub proof fn blocking_findings_are_all_counted(
    policy: PrSecurityPolicy,
    reported: Seq<Finding>,
    f: Finding,
)
    ensures
        blocking_count(policy, reported.push(f)) == blocking_count(policy, reported) + (if match
        policy.blocking_threshold {
            PrBlockingThreshold::Never => false,
            PrBlockingThreshold::Low => true,
            PrBlockingThreshold::Medium => reaches_threshold(f.severity, Severity::Medium),
            PrBlockingThreshold::High => reaches_threshold(f.severity, Severity::High),
            PrBlockingThreshold::Critical => reaches_threshold(f.severity, Severity::Critical),
        } {
            1nat
        } else {
            0nat
        }),
        blocking_count(policy, Seq::empty()) == 0,
{
    if let Some(severity) = policy.blocking_threshold.blocks_from() {
        findings_at_the_threshold_are_kept(reported, severity, f);
        let p = |f: Finding| f.severity.rank() >= severity.rank();
        assert(Seq::<Finding>::empty().filter(p).len() == 0) by {
            reveal(Seq::filter);
        }
    }
}

} // verus!
