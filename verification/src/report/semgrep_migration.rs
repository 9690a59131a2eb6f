//! How much of an imported Semgrep rule pack takes effect, in words.

use crate::rules::semgrep_readiness::{
    disposition_totals, language_totals, language_totals_views, reason_totals, record_views,
    totals_view, LanguageTotals, RecordView, SemgrepMigrationDisposition,
    SemgrepMigrationReadinessReport, SemgrepMigrationReasonCode,
};
use crate::text::{decimal, decimal_string, owned};
use vstd::prelude::*;

verus! {

/// How often the disposition occurs, by totals.
pub open spec fn total_of(
    totals: Seq<(SemgrepMigrationDisposition, nat)>,
    d: SemgrepMigrationDisposition,
) -> nat
    decreases totals.len(),
{
    if totals.len() == 0 {
        0
    } else if totals[0].0 == d {
        totals[0].1
    } else {
        total_of(totals.drop_first(), d)
    }
}

fn count(
    totals: &Vec<(SemgrepMigrationDisposition, usize)>,
    disposition: SemgrepMigrationDisposition,
) -> (r: usize)
    ensures
        r == total_of(totals_view(totals@), disposition),
{
    let ghost all = totals_view(totals@);
    let mut i: usize = 0;
    assert(all.skip(0) =~= all);
    while i < totals.len()
        invariant
            i <= totals@.len(),
            all == totals_view(totals@),
            total_of(all, disposition) == total_of(all.skip(i as int), disposition),
        decreases totals@.len() - i,
    {
        proof {
            assert(all.skip(i as int)[0] == all[i as int]);
            assert(all[i as int] == (totals@[i as int].0, totals@[i as int].1 as nat));
            assert(all.skip(i as int).drop_first() =~= all.skip(i + 1));
        }
        if totals[i].0 == disposition {
            return totals[i].1;
        }
        i = i + 1;
    }
    0
}

/// The lines of the languages.
pub open spec fn language_lines(
    totals: Seq<(Seq<char>, Seq<(SemgrepMigrationDisposition, nat)>)>,
    n: int,
) -> Seq<char>
    decreases n,
{
    if n <= 0 {
        Seq::empty()
    } else {
        let t = totals[n - 1];
        language_lines(totals, n - 1) + "  "@ + t.0 + ": exact="@ + decimal(
            total_of(t.1, SemgrepMigrationDisposition::Exact),
        ) + " degraded="@ + decimal(total_of(t.1, SemgrepMigrationDisposition::Degraded))
            + " skipped="@ + decimal(total_of(t.1, SemgrepMigrationDisposition::Skipped)) + "\n"@
    }
}

/// The lines of the reasons.
pub open spec fn reason_lines(totals: Seq<(SemgrepMigrationReasonCode, nat)>, n: int) -> Seq<char>
    decreases n,
{
    if n <= 0 {
        Seq::empty()
    } else {
        let t = totals[n - 1];
        reason_lines(totals, n - 1) + "  "@ + t.0.word() + ": "@ + decimal(t.1) + "\n"@
    }
}

/// The lines of the records.
pub open spec fn record_lines(records: Seq<RecordView>, n: int) -> Seq<char>
    decreases n,
{
    if n <= 0 {
        Seq::empty()
    } else {
        let r = records[n - 1];
        record_lines(records, n - 1) + "  "@ + r.source_id + "  "@ + r.language + "  "@
            + r.disposition.word() + "  "@ + r.reason_code.word() + "\n"@
    }
}

/// The report in words: totals, then totals by language and by reason, then every record.
pub open spec fn rendered(schema: Seq<char>, records: Seq<RecordView>) -> Seq<char> {
    let totals = disposition_totals(records, 3);
    let languages = language_totals(records);
    let reasons = reason_totals(records, 15);
    "Semgrep migration readiness (schema "@ + schema + ")\nRules: "@ + decimal(records.len())
        + "  exact: "@ + decimal(total_of(totals, SemgrepMigrationDisposition::Exact))
        + "  degraded: "@ + decimal(total_of(totals, SemgrepMigrationDisposition::Degraded))
        + "  skipped: "@ + decimal(total_of(totals, SemgrepMigrationDisposition::Skipped))
        + "\n\nBy language:\n"@ + language_lines(languages, languages.len() as int)
        + "\nBy reason:\n"@ + reason_lines(reasons, reasons.len() as int) + "\nRecords:\n"@
        + record_lines(records, records.len() as int)
}

fn language_text(totals: &Vec<LanguageTotals>) -> (r: String)
    ensures
        r@ == language_lines(language_totals_views(totals@), totals@.len() as int),
{
    let ghost all = language_totals_views(totals@);
    let mut s: String = String::new();
    assert(s@ =~= Seq::<char>::empty());
    let mut i: usize = 0;
    while i < totals.len()
        invariant
            i <= totals@.len(),
            all == language_totals_views(totals@),
            s@ == language_lines(all, i as int),
        decreases totals@.len() - i,
    {
        let t = &totals[i];
        assert(all[i as int] == (t.language@, totals_view(t.totals@)));
        s.append("  ");
        s.append(t.language.as_str());
        s.append(": exact=");
        s.append(
            decimal_string(count(&t.totals, SemgrepMigrationDisposition::Exact) as u64).as_str(),
        );
        s.append(" degraded=");
        s.append(
            decimal_string(count(&t.totals, SemgrepMigrationDisposition::Degraded) as u64).as_str(),
        );
        s.append(" skipped=");
        s.append(
            decimal_string(count(&t.totals, SemgrepMigrationDisposition::Skipped) as u64).as_str(),
        );
        s.append("\n");
        i = i + 1;
    }
    s
}

fn reason_text(totals: &Vec<(SemgrepMigrationReasonCode, usize)>) -> (r: String)
    ensures
        r@ == reason_lines(totals_view(totals@), totals@.len() as int),
{
    let ghost all = totals_view(totals@);
    let mut s: String = String::new();
    assert(s@ =~= Seq::<char>::empty());
    let mut i: usize = 0;
    while i < totals.len()
        invariant
            i <= totals@.len(),
            all == totals_view(totals@),
            s@ == reason_lines(all, i as int),
        decreases totals@.len() - i,
    {
        assert(all[i as int] == (totals@[i as int].0, totals@[i as int].1 as nat));
        s.append("  ");
        s.append(totals[i].0.as_str());
        s.append(": ");
        s.append(decimal_string(totals[i].1 as u64).as_str());
        s.append("\n");
        i = i + 1;
    }
    s
}

fn record_text(report: &SemgrepMigrationReadinessReport) -> (r: String)
    ensures
        r@ == record_lines(record_views(report.records@), report.records@.len() as int),
{
    let ghost all = record_views(report.records@);
    let mut s: String = String::new();
    assert(s@ =~= Seq::<char>::empty());
    let mut i: usize = 0;
    while i < report.records.len()
        invariant
            i <= report.records@.len(),
            all == record_views(report.records@),
            s@ == record_lines(all, i as int),
        decreases report.records@.len() - i,
    {
        let r = &report.records[i];
        assert(all[i as int] == r@);
        s.append("  ");
        s.append(r.source_id.as_str());
        s.append("  ");
        s.append(r.language.as_str());
        s.append("  ");
        s.append(r.disposition.as_str());
        s.append("  ");
        s.append(r.reason_code.as_str());
        s.append("\n");
        i = i + 1;
    }
    s
}

/// The report in words: totals, then totals by language and by reason, then every record.
pub fn render_terminal(report: &SemgrepMigrationReadinessReport) -> (r: String)
    ensures
        r@ == rendered(report.schema_version@, record_views(report.records@)),
{
    let ghost records = record_views(report.records@);
    let totals = report.total_by_disposition();
    let languages = report.total_by_language();
    let reasons = report.total_by_reason();
    proof {
        assert(records.len() == report.records@.len());
        assert(language_totals_views(languages@).len() == languages@.len());
        assert(totals_view(reasons@).len() == reasons@.len());
    }
    let mut s: String = owned("Semgrep migration readiness (schema ");
    s.append(report.schema_version.as_str());
    s.append(")\nRules: ");
    s.append(decimal_string(report.records.len() as u64).as_str());
    s.append("  exact: ");
    s.append(decimal_string(count(&totals, SemgrepMigrationDisposition::Exact) as u64).as_str());
    s.append("  degraded: ");
    s.append(decimal_string(count(&totals, SemgrepMigrationDisposition::Degraded) as u64).as_str());
    s.append("  skipped: ");
    s.append(decimal_string(count(&totals, SemgrepMigrationDisposition::Skipped) as u64).as_str());
    s.append("\n\nBy language:\n");
    let l = language_text(&languages);
    s.append(l.as_str());
    s.append("\nBy reason:\n");
    let c = reason_text(&reasons);
    s.append(c.as_str());
    s.append("\nRecords:\n");
    let t = record_text(report);
    s.append(t.as_str());
    s
}

} // verus!
