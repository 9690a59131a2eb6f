//! What a report on a rule pack counts and shows: every source rule, under its disposition, its reason
//! and its language.

use crate::report::semgrep_migration::{
    language_lines, reason_lines, record_lines, rendered, total_of,
};
use crate::rules::semgrep_readiness::{
    all_dispositions, all_reasons, count_disposition, count_reason, disposition_totals, in_language,
    language_totals, languages_of, pack_records, reason_of, reason_totals, record_of,
    some_languages, text_order, RecordView, SemgrepImportDiagnostic, SemgrepImportSourceOutcome,
    SemgrepMigrationDisposition, SemgrepMigrationReasonCode,
};
use crate::sort::{sorting_orders_and_permutes, total_preorder};
use crate::text::{
    contains_text, decimal, lemma_text_le_reflexive, lemma_text_le_total, lemma_text_le_transitive,
    occurs_at,
};
use vstd::prelude::*;

verus! {

// ---------------------------------------------------------------------------
// Records
// ---------------------------------------------------------------------------

proof fn lemma_pack_prefix(
    a: Seq<Vec<SemgrepImportSourceOutcome>>,
    b: Seq<Vec<SemgrepImportSourceOutcome>>,
    n: int,
)
    requires
        0 <= n <= a.len(),
        n <= b.len(),
        forall|i: int| 0 <= i < n ==> a[i] == b[i],
    ensures
        pack_records(a, n) == pack_records(b, n),
    decreases n,
{
    if n > 0 {
        lemma_pack_prefix(a, b, n - 1);
    }
}

/// The records of a rule pack are those of its files, one file after the other: those of two lists of
/// files are those of the first and then those of the second, and a file has one for each of its
/// source rules.
pub proof fn every_source_rule_has_a_record(
    a: Seq<Vec<SemgrepImportSourceOutcome>>,
    b: Seq<Vec<SemgrepImportSourceOutcome>>,
    file: Vec<SemgrepImportSourceOutcome>,
    i: int,
)
    ensures
        pack_records(a + b, (a + b).len() as int) == pack_records(a, a.len() as int)
            + pack_records(b, b.len() as int),
        pack_records(seq![file], 1).len() == file@.len(),
        0 <= i < file@.len() ==> pack_records(seq![file], 1)[i] == record_of(file@[i]),
    decreases b.len(),
{
    let one = file@.map_values(|s: SemgrepImportSourceOutcome| record_of(s));
    assert(pack_records(seq![file], 0) + one =~= one);
    assert(pack_records(seq![file], 1) == pack_records(seq![file], 0) + one);
    let n = a.len() as int;
    let m = b.len() as int;
    let x = pack_records(a, n);
    if m == 0 {
        assert(a + b =~= a);
        assert(x + pack_records(b, 0) =~= x);
    } else {
        let t = b.drop_last();
        every_source_rule_has_a_record(a, t, file, i);
        lemma_pack_prefix(a + t, a + b, n + m - 1);
        lemma_pack_prefix(t, b, m - 1);
        assert((a + b)[n + m - 1] == b[m - 1]);
        let y = pack_records(t, m - 1);
        let z = b[m - 1]@.map_values(|s: SemgrepImportSourceOutcome| record_of(s));
        assert((x + y) + z =~= x + (y + z));
    }
}

// ---------------------------------------------------------------------------
// Totals
// ---------------------------------------------------------------------------

/// The totals hold the disposition with how many records have it, exactly where there are some, and
/// the total of each disposition is that number.
pub proof fn totals_count_every_disposition(
    records: Seq<RecordView>,
    d: SemgrepMigrationDisposition,
)
    ensures
        total_of(disposition_totals(records, 3), d) == records.filter(
            |r: RecordView| r.disposition == d,
        ).len(),
        forall|c: nat|
            #[trigger] disposition_totals(records, 3).contains((d, c)) <==> c > 0 && c
                == records.filter(|r: RecordView| r.disposition == d).len(),
{
    lemma_disposition_totals(records, 3, d);
    lemma_total_of(disposition_totals(records, 3), d, count_disposition(records, d));
    assert(all_dispositions()[0] == SemgrepMigrationDisposition::Exact);
    assert(all_dispositions()[1] == SemgrepMigrationDisposition::Degraded);
    assert(all_dispositions()[2] == SemgrepMigrationDisposition::Skipped);
}

proof fn lemma_disposition_totals(
    records: Seq<RecordView>,
    n: int,
    d: SemgrepMigrationDisposition,
)
    requires
        0 <= n <= 3,
    ensures
        forall|c: nat|
            #[trigger] disposition_totals(records, n).contains((d, c)) <==> c > 0 && c
                == count_disposition(records, d) && exists|i: int|
                0 <= i < n && #[trigger] all_dispositions()[i] == d,
    decreases n,
{
    if n > 0 {
        lemma_disposition_totals(records, n - 1, d);
        let before = disposition_totals(records, n - 1);
        let now = disposition_totals(records, n);
        let here = all_dispositions()[n - 1];
        let entry = (here, count_disposition(records, here));
        assert forall|c: nat| #[trigger] now.contains((d, c)) <==> c > 0 && c == count_disposition(
            records,
            d,
        ) && exists|i: int| 0 <= i < n && #[trigger] all_dispositions()[i] == d by {
            if now.contains((d, c)) {
                let k = choose|k: int| 0 <= k < now.len() && now[k] == (d, c);
                if k < before.len() {
                    assert(before[k] == (d, c));
                    assert(before.contains((d, c)));
                } else {
                    assert(all_dispositions()[n - 1] == d);
                }
            }
            if before.contains((d, c)) {
                let k = choose|k: int| 0 <= k < before.len() && before[k] == (d, c);
                assert(now[k] == (d, c));
            }
            if c > 0 && c == count_disposition(records, d) && here == d {
                assert(now[before.len() as int] == (d, c));
            }
        }
    }
}

proof fn lemma_total_of(
    totals: Seq<(SemgrepMigrationDisposition, nat)>,
    d: SemgrepMigrationDisposition,
    count: nat,
)
    requires
        forall|c: nat| #[trigger] totals.contains((d, c)) ==> c == count,
        count > 0 ==> totals.contains((d, count)),
    ensures
        total_of(totals, d) == count,
    decreases totals.len(),
{
    if totals.len() > 0 {
        let t = totals.drop_first();
        if totals[0].0 == d {
            assert(totals.contains((d, totals[0].1))) by {
                assert(totals[0] == (d, totals[0].1));
            }
        } else {
            assert forall|c: nat| #[trigger] t.contains((d, c)) implies c == count by {
                let k = choose|k: int| 0 <= k < t.len() && t[k] == (d, c);
                assert(totals[k + 1] == (d, c));
                assert(totals.contains((d, c)));
            }
            if count > 0 {
                let k = choose|k: int| 0 <= k < totals.len() && totals[k] == (d, count);
                assert(t[k - 1] == (d, count));
            }
            lemma_total_of(t, d, count);
        }
    } else if count > 0 {
        assert(totals.contains((d, count)));
    }
}

/// The totals hold the reason with how many records have it, exactly where there are some.
pub proof fn totals_count_every_reason(
    records: Seq<RecordView>,
    reason: SemgrepMigrationReasonCode,
    c: nat,
)
    ensures
        reason_totals(records, 15).contains((reason, c)) <==> c > 0 && c == records.filter(
            |r: RecordView| r.reason_code == reason,
        ).len(),
{
    lemma_reason_totals(records, 15, reason, c);
    assert(all_reasons()[reason.rank()] == reason);
}

proof fn lemma_reason_totals(
    records: Seq<RecordView>,
    n: int,
    reason: SemgrepMigrationReasonCode,
    c: nat,
)
    requires
        0 <= n <= 15,
    ensures
        reason_totals(records, n).contains((reason, c)) <==> c > 0 && c == count_reason(
            records,
            reason,
        ) && exists|i: int| 0 <= i < n && #[trigger] all_reasons()[i] == reason,
    decreases n,
{
    if n > 0 {
        lemma_reason_totals(records, n - 1, reason, c);
        let before = reason_totals(records, n - 1);
        let now = reason_totals(records, n);
        let here = all_reasons()[n - 1];
        if now.contains((reason, c)) {
            let k = choose|k: int| 0 <= k < now.len() && now[k] == (reason, c);
            if k < before.len() {
                assert(before[k] == (reason, c));
                assert(before.contains((reason, c)));
            } else {
                assert(all_reasons()[n - 1] == reason);
            }
        }
        if before.contains((reason, c)) {
            let k = choose|k: int| 0 <= k < before.len() && before[k] == (reason, c);
            assert(now[k] == (reason, c));
        }
        if c > 0 && c == count_reason(records, reason) && here == reason {
            assert(now[before.len() as int] == (reason, c));
        }
        if exists|i: int| 0 <= i < n && #[trigger] all_reasons()[i] == reason {
            let i = choose|i: int| 0 <= i < n && #[trigger] all_reasons()[i] == reason;
            if i < n - 1 {
                assert(all_reasons()[i] == reason);
            }
        }
    }
}

proof fn lemma_some_languages(records: Seq<RecordView>, n: int, language: Seq<char>)
    requires
        0 <= n <= records.len(),
    ensures
        some_languages(records, n).contains(language) <==> exists|i: int|
            0 <= i < n && (#[trigger] records[i]).language == language,
        some_languages(records, n).no_duplicates(),
    decreases n,
{
    if n > 0 {
        lemma_some_languages(records, n - 1, language);
        let before = some_languages(records, n - 1);
        let now = some_languages(records, n);
        if now.contains(language) {
            let k = choose|k: int| 0 <= k < now.len() && now[k] == language;
            if k < before.len() {
                assert(before[k] == language);
            } else {
                assert(records[n - 1].language == language);
            }
        }
        if before.contains(language) {
            let k = choose|k: int| 0 <= k < before.len() && before[k] == language;
            assert(now[k] == language);
        }
        if records[n - 1].language == language && !before.contains(language) {
            assert(now[before.len() as int] == language);
        }
        if exists|i: int| 0 <= i < n && (#[trigger] records[i]).language == language {
            let i = choose|i: int| 0 <= i < n && (#[trigger] records[i]).language == language;
            if i < n - 1 {
                assert(records[i].language == language);
            }
        }
    }
}

/// The languages of a report are those of its records, all of them, each once, and each has the
/// totals of its own records.
pub proof fn every_language_has_its_totals(records: Seq<RecordView>, language: Seq<char>)
    ensures
        languages_of(records).contains(language) <==> exists|i: int|
            0 <= i < records.len() && (#[trigger] records[i]).language == language,
        languages_of(records).len() == some_languages(records, records.len() as int).len(),
        language_totals(records).len() == languages_of(records).len(),
        forall|k: int|
            0 <= k < languages_of(records).len() ==> #[trigger] language_totals(records)[k] == (
                languages_of(records)[k],
                disposition_totals(
                    records.filter(|r: RecordView| r.language == languages_of(records)[k]),
                    3,
                ),
            ),
{
    broadcast use vstd::seq_lib::group_to_multiset_ensures;

    let some = some_languages(records, records.len() as int);
    let le = text_order();
    assert(total_preorder(le)) by {
        assert forall|a: Seq<char>| #[trigger] le(a, a) by {
            lemma_text_le_reflexive(a);
        }
        assert forall|a: Seq<char>, b: Seq<char>| #[trigger] le(a, b) || le(b, a) by {
            lemma_text_le_total(a, b);
        }
        assert forall|a: Seq<char>, b: Seq<char>, c: Seq<char>| #[trigger]
            le(a, b) && #[trigger] le(b, c) implies le(a, c) by {
            lemma_text_le_transitive(a, b, c);
        }
    }
    sorting_orders_and_permutes(some, le);
    lemma_some_languages(records, records.len() as int, language);
    let all = languages_of(records);
    assert(all.contains(language) <==> all.to_multiset().count(language) > 0);
    assert(some.contains(language) <==> some.to_multiset().count(language) > 0);
    assert forall|k: int| 0 <= k < all.len() implies #[trigger] language_totals(records)[k] == (
        all[k],
        disposition_totals(records.filter(|r: RecordView| r.language == all[k]), 3),
    ) by {
        let l = all[k];
        assert(in_language(records, l) == records.filter(|r: RecordView| r.language == l));
    }
}

// ---------------------------------------------------------------------------
// The report in words
// ---------------------------------------------------------------------------

proof fn lemma_contains_itself(m: Seq<char>)
    ensures
        contains_text(m, m),
{
    assert(m.subrange(0, m.len() as int) =~= m);
    assert(occurs_at(m, m, 0));
}

proof fn lemma_contains_around(a: Seq<char>, s: Seq<char>, b: Seq<char>, m: Seq<char>)
    requires
        contains_text(s, m),
    ensures
        contains_text(a + s, m),
        contains_text(s + b, m),
{
    let i = choose|i: int| occurs_at(s, m, i);
    assert((a + s).subrange(a.len() + i, a.len() + i + m.len()) =~= s.subrange(i, i + m.len()));
    assert(occurs_at(a + s, m, a.len() + i));
    assert((s + b).subrange(i, i + m.len()) =~= s.subrange(i, i + m.len()));
    assert(occurs_at(s + b, m, i));
}

/// The line of a record: its source, language, disposition and reason.
pub open spec fn line_of_record(r: RecordView) -> Seq<char> {
    r.source_id + "  "@ + r.language + "  "@ + r.disposition.word() + "  "@ + r.reason_code.word()
        + "\n"@
}

proof fn lemma_record_line(before: Seq<char>, r: RecordView)
    ensures
        before + "  "@ + r.source_id + "  "@ + r.language + "  "@ + r.disposition.word() + "  "@
            + r.reason_code.word() + "\n"@ == (before + "  "@) + line_of_record(r),
{
    lemma_regroup(
        before + "  "@,
        r.source_id,
        "  "@,
        r.language,
        r.disposition.word(),
        r.reason_code.word(),
        "\n"@,
    );
}

proof fn lemma_regroup(
    x: Seq<char>,
    a: Seq<char>,
    s: Seq<char>,
    b: Seq<char>,
    c: Seq<char>,
    d: Seq<char>,
    e: Seq<char>,
)
    ensures
        x + a + s + b + s + c + s + d + e == x + (a + s + b + s + c + s + d + e),
{
    assert(x + a + s + b + s + c + s + d + e =~= x + (a + s + b + s + c + s + d + e));
}

/// The report in words holds the line of every record.
pub proof fn reports_show_every_record(schema: Seq<char>, records: Seq<RecordView>, i: int)
    requires
        0 <= i < records.len(),
    ensures
        contains_text(rendered(schema, records), line_of_record(records[i])),
{
    let m = line_of_record(records[i]);
    let all = record_lines(records, records.len() as int);
    lemma_records_shown(records, records.len() as int, i, m);
    let text = rendered(schema, records);
    let totals = disposition_totals(records, 3);
    let languages = language_totals(records);
    let reasons = reason_totals(records, 15);
    lemma_contains_around(
        "Semgrep migration readiness (schema "@ + schema + ")\nRules: "@ + decimal(records.len())
            + "  exact: "@ + decimal(total_of(totals, SemgrepMigrationDisposition::Exact))
            + "  degraded: "@ + decimal(total_of(totals, SemgrepMigrationDisposition::Degraded))
            + "  skipped: "@ + decimal(total_of(totals, SemgrepMigrationDisposition::Skipped))
            + "\n\nBy language:\n"@ + language_lines(languages, languages.len() as int)
            + "\nBy reason:\n"@ + reason_lines(reasons, reasons.len() as int) + "\nRecords:\n"@,
        all,
        Seq::empty(),
        m,
    );
}

proof fn lemma_records_shown(records: Seq<RecordView>, n: int, i: int, m: Seq<char>)
    requires
        0 <= i < n <= records.len(),
        m == line_of_record(records[i]),
    ensures
        contains_text(record_lines(records, n), m),
    decreases n,
{
    let before = record_lines(records, n - 1);
    let r = records[n - 1];
    lemma_record_line(before, r);
    assert(record_lines(records, n) == (before + "  "@) + line_of_record(r));
    if i == n - 1 {
        lemma_contains_itself(m);
        lemma_contains_around(before + "  "@, m, Seq::empty(), m);
    } else {
        lemma_records_shown(records, n - 1, i, m);
        lemma_contains_around(Seq::empty(), before, "  "@, m);
        lemma_contains_around(Seq::empty(), before + "  "@, line_of_record(r), m);
    }
}

/// The lines of the reasons hold one for each total.
pub proof fn reports_show_every_reason(
    totals: Seq<(SemgrepMigrationReasonCode, nat)>,
    n: int,
    i: int,
)
    requires
        0 <= i < n <= totals.len(),
    ensures
        contains_text(
            reason_lines(totals, n),
            totals[i].0.word() + ": "@ + decimal(totals[i].1) + "\n"@,
        ),
    decreases n,
{
    let m = totals[i].0.word() + ": "@ + decimal(totals[i].1) + "\n"@;
    let before = reason_lines(totals, n - 1);
    let t = totals[n - 1];
    let here = t.0.word() + ": "@ + decimal(t.1) + "\n"@;
    lemma_reason_line(before + "  "@, t.0.word(), ": "@, decimal(t.1), "\n"@);
    assert(reason_lines(totals, n) == (before + "  "@) + here);
    if i == n - 1 {
        lemma_contains_itself(m);
        lemma_contains_around(before + "  "@, m, Seq::empty(), m);
    } else {
        reports_show_every_reason(totals, n - 1, i);
        lemma_contains_around(Seq::empty(), before, "  "@, m);
        lemma_contains_around(Seq::empty(), before + "  "@, here, m);
    }
}

proof fn lemma_reason_line(
    x: Seq<char>,
    a: Seq<char>,
    b: Seq<char>,
    c: Seq<char>,
    d: Seq<char>,
)
    ensures
        x + a + b + c + d == x + (a + b + c + d),
{
    assert(x + a + b + c + d =~= x + (a + b + c + d));
}

/// The line of a language: how many of its rules are exact, degraded and skipped.
pub open spec fn line_of_language(
    language: Seq<char>,
    totals: Seq<(SemgrepMigrationDisposition, nat)>,
) -> Seq<char> {
    language + ": exact="@ + decimal(total_of(totals, SemgrepMigrationDisposition::Exact))
        + " degraded="@ + decimal(total_of(totals, SemgrepMigrationDisposition::Degraded))
        + " skipped="@ + decimal(total_of(totals, SemgrepMigrationDisposition::Skipped)) + "\n"@
}

proof fn lemma_language_line(
    x: Seq<char>,
    a: Seq<char>,
    b: Seq<char>,
    c: Seq<char>,
    d: Seq<char>,
    e: Seq<char>,
    f: Seq<char>,
    g: Seq<char>,
    h: Seq<char>,
)
    ensures
        x + a + b + c + d + e + f + g + h == x + (a + b + c + d + e + f + g + h),
{
    assert(x + a + b + c + d + e + f + g + h =~= x + (a + b + c + d + e + f + g + h));
}

/// The lines of the languages hold one for each.
pub proof fn reports_show_every_language(
    totals: Seq<(Seq<char>, Seq<(SemgrepMigrationDisposition, nat)>)>,
    n: int,
    i: int,
)
    requires
        0 <= i < n <= totals.len(),
    ensures
        contains_text(language_lines(totals, n), line_of_language(totals[i].0, totals[i].1)),
    decreases n,
{
    let m = line_of_language(totals[i].0, totals[i].1);
    let before = language_lines(totals, n - 1);
    let t = totals[n - 1];
    let here = line_of_language(t.0, t.1);
    lemma_language_line(
        before + "  "@,
        t.0,
        ": exact="@,
        decimal(total_of(t.1, SemgrepMigrationDisposition::Exact)),
        " degraded="@,
        decimal(total_of(t.1, SemgrepMigrationDisposition::Degraded)),
        " skipped="@,
        decimal(total_of(t.1, SemgrepMigrationDisposition::Skipped)),
        "\n"@,
    );
    assert(language_lines(totals, n) == (before + "  "@) + here);
    if i == n - 1 {
        lemma_contains_itself(m);
        lemma_contains_around(before + "  "@, m, Seq::empty(), m);
    } else {
        reports_show_every_language(totals, n - 1, i);
        lemma_contains_around(Seq::empty(), before, "  "@, m);
        lemma_contains_around(Seq::empty(), before + "  "@, here, m);
    }
}

// ---------------------------------------------------------------------------
// Reasons
// ---------------------------------------------------------------------------

/// The first note on a rule that was taken over is the reason that is given, whatever the others are;
/// for one that was not, a document or a file that could not be read comes before all other notes.
pub proof fn the_first_note_is_the_reason(source: SemgrepImportSourceOutcome)
    ensures
        source.emitted && source.diagnostics@.len() > 0 ==> record_of(source).reason_code
            == reason_of(source.diagnostics@[0]) && record_of(source).disposition is Degraded,
        !source.emitted && source.diagnostics@.contains(SemgrepImportDiagnostic::InvalidDocument)
            ==> record_of(source).reason_code is InvalidDocument,
        !source.emitted && !source.diagnostics@.contains(SemgrepImportDiagnostic::InvalidDocument)
            && source.diagnostics@.contains(SemgrepImportDiagnostic::FileImportFailed)
            ==> record_of(source).reason_code is FileImportFailed,
        !source.emitted && !source.diagnostics@.contains(SemgrepImportDiagnostic::InvalidDocument)
            && !source.diagnostics@.contains(SemgrepImportDiagnostic::FileImportFailed)
            && source.diagnostics@.len() > 0 ==> record_of(source).reason_code == reason_of(
            source.diagnostics@[0],
        ),
        !source.emitted && source.diagnostics@.len() == 0 ==> record_of(
            source,
        ).reason_code is LoaderRejected,
        record_of(source).source_id == source.source_id@ && record_of(source).language
            == source.language@,
{
}

/// Different notes stand for different reasons.
pub proof fn notes_stand_for_their_own_reasons(
    a: SemgrepImportDiagnostic,
    b: SemgrepImportDiagnostic,
)
    ensures
        reason_of(a) == reason_of(b) <==> a == b,
        !(reason_of(a) is Exact),
{
}

} // verus!
