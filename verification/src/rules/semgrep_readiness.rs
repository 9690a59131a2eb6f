//! How much of an imported Semgrep rule pack takes effect.

use crate::paths::{file_name, last_name};
use crate::sort::{
    lemma_sort_map, sort_stable, sorting_orders_and_permutes, stable_sort, total_preorder,
};
use crate::text::{
    after_last, after_last_char, at_most, chars_of, contains_string, lemma_text_le_antisymmetric,
    lemma_text_le_reflexive, lemma_text_le_total, lemma_text_le_transitive, lemma_texts_push, owned,
    same, text_le, texts,
};
use vstd::prelude::*;

verus! {

/// Version of the migration-readiness report.
///
/// It changes when a field is removed, changes type, or changes meaning.
pub const SEMGREP_MIGRATION_READINESS_SCHEMA_VERSION: &'static str = "1.0.0";

/// What the import made of one source rule.
///
/// `Exact` means that a live rule was emitted and no reduction recorded; it claims no parity of
/// results. `Degraded` means that a live rule was emitted after a recorded reduction. `Skipped` means
/// that no live rule was emitted.
#[derive(Debug, Clone, Copy, PartialEq, Eq, Structural)]
pub enum SemgrepMigrationDisposition {
    Exact,
    Degraded,
    Skipped,
}

impl SemgrepMigrationDisposition {
    pub open spec fn rank(self) -> int {
        match self {
            SemgrepMigrationDisposition::Exact => 0,
            SemgrepMigrationDisposition::Degraded => 1,
            SemgrepMigrationDisposition::Skipped => 2,
        }
    }

    pub open spec fn word(self) -> Seq<char> {
        match self {
            SemgrepMigrationDisposition::Exact => "exact"@,
            SemgrepMigrationDisposition::Degraded => "degraded"@,
            SemgrepMigrationDisposition::Skipped => "skipped"@,
        }
    }

    /// The place of the disposition among all.
    pub fn position(self) -> (r: usize)
        ensures
            r == self.rank(),
    {
        match self {
            SemgrepMigrationDisposition::Exact => 0,
            SemgrepMigrationDisposition::Degraded => 1,
            SemgrepMigrationDisposition::Skipped => 2,
        }
    }

    /// The disposition in a word.
    pub fn as_str(self) -> (r: &'static str)
        ensures
            r@ == self.word(),
    {
        match self {
            SemgrepMigrationDisposition::Exact => "exact",
            SemgrepMigrationDisposition::Degraded => "degraded",
            SemgrepMigrationDisposition::Skipped => "skipped",
        }
    }
}

/// All dispositions, in order.
pub open spec fn all_dispositions() -> Seq<SemgrepMigrationDisposition> {
    seq![
        SemgrepMigrationDisposition::Exact,
        SemgrepMigrationDisposition::Degraded,
        SemgrepMigrationDisposition::Skipped,
    ]
}

/// Why the import made of a rule what it did.
#[derive(Debug, Clone, Copy, PartialEq, Eq, Structural)]
pub enum SemgrepMigrationReasonCode {
    Exact,
    UnsupportedFixRegex,
    UnsupportedLanguage,
    UnsupportedMode,
    UnsupportedConstruct,
    UnsupportedTaintShape,
    UnsupportedPatternEitherRegex,
    UnsupportedPatternNotRegex,
    UnsupportedPatternRegex,
    EngineCodeql,
    EngineCoccinelle,
    InvalidRule,
    InvalidDocument,
    FileImportFailed,
    LoaderRejected,
}

/// All reasons, in order.
pub open spec fn all_reasons() -> Seq<SemgrepMigrationReasonCode> {
    seq![
        SemgrepMigrationReasonCode::Exact,
        SemgrepMigrationReasonCode::UnsupportedFixRegex,
        SemgrepMigrationReasonCode::UnsupportedLanguage,
        SemgrepMigrationReasonCode::UnsupportedMode,
        SemgrepMigrationReasonCode::UnsupportedConstruct,
        SemgrepMigrationReasonCode::UnsupportedTaintShape,
        SemgrepMigrationReasonCode::UnsupportedPatternEitherRegex,
        SemgrepMigrationReasonCode::UnsupportedPatternNotRegex,
        SemgrepMigrationReasonCode::UnsupportedPatternRegex,
        SemgrepMigrationReasonCode::EngineCodeql,
        SemgrepMigrationReasonCode::EngineCoccinelle,
        SemgrepMigrationReasonCode::InvalidRule,
        SemgrepMigrationReasonCode::InvalidDocument,
        SemgrepMigrationReasonCode::FileImportFailed,
        SemgrepMigrationReasonCode::LoaderRejected,
    ]
}

impl SemgrepMigrationReasonCode {
    pub open spec fn rank(self) -> int {
        match self {
            SemgrepMigrationReasonCode::Exact => 0,
            SemgrepMigrationReasonCode::UnsupportedFixRegex => 1,
            SemgrepMigrationReasonCode::UnsupportedLanguage => 2,
            SemgrepMigrationReasonCode::UnsupportedMode => 3,
            SemgrepMigrationReasonCode::UnsupportedConstruct => 4,
            SemgrepMigrationReasonCode::UnsupportedTaintShape => 5,
            SemgrepMigrationReasonCode::UnsupportedPatternEitherRegex => 6,
            SemgrepMigrationReasonCode::UnsupportedPatternNotRegex => 7,
            SemgrepMigrationReasonCode::UnsupportedPatternRegex => 8,
            SemgrepMigrationReasonCode::EngineCodeql => 9,
            SemgrepMigrationReasonCode::EngineCoccinelle => 10,
            SemgrepMigrationReasonCode::InvalidRule => 11,
            SemgrepMigrationReasonCode::InvalidDocument => 12,
            SemgrepMigrationReasonCode::FileImportFailed => 13,
            SemgrepMigrationReasonCode::LoaderRejected => 14,
        }
    }

    pub open spec fn word(self) -> Seq<char> {
        match self {
            SemgrepMigrationReasonCode::Exact => "exact"@,
            SemgrepMigrationReasonCode::UnsupportedFixRegex => "unsupported-fix-regex"@,
            SemgrepMigrationReasonCode::UnsupportedLanguage => "unsupported-language"@,
            SemgrepMigrationReasonCode::UnsupportedMode => "unsupported-mode"@,
            SemgrepMigrationReasonCode::UnsupportedConstruct => "unsupported-construct"@,
            SemgrepMigrationReasonCode::UnsupportedTaintShape => "unsupported-taint-shape"@,
            SemgrepMigrationReasonCode::UnsupportedPatternEitherRegex =>
                "unsupported-pattern-either-regex"@,
            SemgrepMigrationReasonCode::UnsupportedPatternNotRegex =>
                "unsupported-pattern-not-regex"@,
            SemgrepMigrationReasonCode::UnsupportedPatternRegex => "unsupported-pattern-regex"@,
            SemgrepMigrationReasonCode::EngineCodeql => "engine-codeql"@,
            SemgrepMigrationReasonCode::EngineCoccinelle => "engine-coccinelle"@,
            SemgrepMigrationReasonCode::InvalidRule => "invalid-rule"@,
            SemgrepMigrationReasonCode::InvalidDocument => "invalid-document"@,
            SemgrepMigrationReasonCode::FileImportFailed => "file-import-failed"@,
            SemgrepMigrationReasonCode::LoaderRejected => "loader-rejected"@,
        }
    }

    /// The place of the reason among all.
    pub fn position(self) -> (r: usize)
        ensures
            r == self.rank(),
    {
        match self {
            SemgrepMigrationReasonCode::Exact => 0,
            SemgrepMigrationReasonCode::UnsupportedFixRegex => 1,
            SemgrepMigrationReasonCode::UnsupportedLanguage => 2,
            SemgrepMigrationReasonCode::UnsupportedMode => 3,
            SemgrepMigrationReasonCode::UnsupportedConstruct => 4,
            SemgrepMigrationReasonCode::UnsupportedTaintShape => 5,
            SemgrepMigrationReasonCode::UnsupportedPatternEitherRegex => 6,
            SemgrepMigrationReasonCode::UnsupportedPatternNotRegex => 7,
            SemgrepMigrationReasonCode::UnsupportedPatternRegex => 8,
            SemgrepMigrationReasonCode::EngineCodeql => 9,
            SemgrepMigrationReasonCode::EngineCoccinelle => 10,
            SemgrepMigrationReasonCode::InvalidRule => 11,
            SemgrepMigrationReasonCode::InvalidDocument => 12,
            SemgrepMigrationReasonCode::FileImportFailed => 13,
            SemgrepMigrationReasonCode::LoaderRejected => 14,
        }
    }

    /// The stable code of the reason.
    pub fn as_str(self) -> (r: &'static str)
        ensures
            r@ == self.word(),
    {
        match self {
            SemgrepMigrationReasonCode::Exact => "exact",
            SemgrepMigrationReasonCode::UnsupportedFixRegex => "unsupported-fix-regex",
            SemgrepMigrationReasonCode::UnsupportedLanguage => "unsupported-language",
            SemgrepMigrationReasonCode::UnsupportedMode => "unsupported-mode",
            SemgrepMigrationReasonCode::UnsupportedConstruct => "unsupported-construct",
            SemgrepMigrationReasonCode::UnsupportedTaintShape => "unsupported-taint-shape",
            SemgrepMigrationReasonCode::UnsupportedPatternEitherRegex =>
                "unsupported-pattern-either-regex",
            SemgrepMigrationReasonCode::UnsupportedPatternNotRegex =>
                "unsupported-pattern-not-regex",
            SemgrepMigrationReasonCode::UnsupportedPatternRegex => "unsupported-pattern-regex",
            SemgrepMigrationReasonCode::EngineCodeql => "engine-codeql",
            SemgrepMigrationReasonCode::EngineCoccinelle => "engine-coccinelle",
            SemgrepMigrationReasonCode::InvalidRule => "invalid-rule",
            SemgrepMigrationReasonCode::InvalidDocument => "invalid-document",
            SemgrepMigrationReasonCode::FileImportFailed => "file-import-failed",
            SemgrepMigrationReasonCode::LoaderRejected => "loader-rejected",
        }
    }
}

/// What the import noted of a source rule.
#[derive(Debug, Clone, Copy, PartialEq, Eq, Structural)]
pub enum SemgrepImportDiagnostic {
    EngineCodeql,
    EngineCoccinelle,
    FileImportFailed,
    InvalidDocument,
    UnsupportedFixRegex,
    UnsupportedLanguage,
    UnsupportedPatternEitherRegex,
    UnsupportedPatternNotRegex,
    UnsupportedPatternRegex,
    UnsupportedTaintShape,
    UnsupportedConstruct,
}

/// The reason that a note stands for.
pub open spec fn reason_of(diagnostic: SemgrepImportDiagnostic) -> SemgrepMigrationReasonCode {
    match diagnostic {
        SemgrepImportDiagnostic::EngineCodeql => SemgrepMigrationReasonCode::EngineCodeql,
        SemgrepImportDiagnostic::EngineCoccinelle => SemgrepMigrationReasonCode::EngineCoccinelle,
        SemgrepImportDiagnostic::FileImportFailed => SemgrepMigrationReasonCode::FileImportFailed,
        SemgrepImportDiagnostic::InvalidDocument => SemgrepMigrationReasonCode::InvalidDocument,
        SemgrepImportDiagnostic::UnsupportedFixRegex =>
            SemgrepMigrationReasonCode::UnsupportedFixRegex,
        SemgrepImportDiagnostic::UnsupportedLanguage =>
            SemgrepMigrationReasonCode::UnsupportedLanguage,
        SemgrepImportDiagnostic::UnsupportedPatternEitherRegex =>
            SemgrepMigrationReasonCode::UnsupportedPatternEitherRegex,
        SemgrepImportDiagnostic::UnsupportedPatternNotRegex =>
            SemgrepMigrationReasonCode::UnsupportedPatternNotRegex,
        SemgrepImportDiagnostic::UnsupportedPatternRegex =>
            SemgrepMigrationReasonCode::UnsupportedPatternRegex,
        SemgrepImportDiagnostic::UnsupportedTaintShape =>
            SemgrepMigrationReasonCode::UnsupportedTaintShape,
        SemgrepImportDiagnostic::UnsupportedConstruct =>
            SemgrepMigrationReasonCode::UnsupportedConstruct,
    }
}

/// The reason that a note stands for.
pub fn reason_code(diagnostic: SemgrepImportDiagnostic) -> (r: SemgrepMigrationReasonCode)
    ensures
        r == reason_of(diagnostic),
{
    match diagnostic {
        SemgrepImportDiagnostic::EngineCodeql => SemgrepMigrationReasonCode::EngineCodeql,
        SemgrepImportDiagnostic::EngineCoccinelle => SemgrepMigrationReasonCode::EngineCoccinelle,
        SemgrepImportDiagnostic::FileImportFailed => SemgrepMigrationReasonCode::FileImportFailed,
        SemgrepImportDiagnostic::InvalidDocument => SemgrepMigrationReasonCode::InvalidDocument,
        SemgrepImportDiagnostic::UnsupportedFixRegex =>
            SemgrepMigrationReasonCode::UnsupportedFixRegex,
        SemgrepImportDiagnostic::UnsupportedLanguage =>
            SemgrepMigrationReasonCode::UnsupportedLanguage,
        SemgrepImportDiagnostic::UnsupportedPatternEitherRegex =>
            SemgrepMigrationReasonCode::UnsupportedPatternEitherRegex,
        SemgrepImportDiagnostic::UnsupportedPatternNotRegex =>
            SemgrepMigrationReasonCode::UnsupportedPatternNotRegex,
        SemgrepImportDiagnostic::UnsupportedPatternRegex =>
            SemgrepMigrationReasonCode::UnsupportedPatternRegex,
        SemgrepImportDiagnostic::UnsupportedTaintShape =>
            SemgrepMigrationReasonCode::UnsupportedTaintShape,
        SemgrepImportDiagnostic::UnsupportedConstruct =>
            SemgrepMigrationReasonCode::UnsupportedConstruct,
    }
}

// ---------------------------------------------------------------------------
// Records
// ---------------------------------------------------------------------------

/// What the import made of one source rule.
#[derive(Debug)]
pub struct SemgrepImportSourceOutcome {
    pub source_id: String,
    pub language: String,
    pub emitted: bool,
    pub diagnostics: Vec<SemgrepImportDiagnostic>,
}

/// One record of the report.
#[derive(Debug, PartialEq, Eq)]
pub struct SemgrepMigrationReadinessRecord {
    pub source_id: String,
    /// The first declared source language. `<none>` stands for a document without a source rule.
    pub language: String,
    pub disposition: SemgrepMigrationDisposition,
    pub reason_code: SemgrepMigrationReasonCode,
}

#[verifier::ext_equal]
pub struct RecordView {
    pub source_id: Seq<char>,
    pub language: Seq<char>,
    pub disposition: SemgrepMigrationDisposition,
    pub reason_code: SemgrepMigrationReasonCode,
}

impl View for SemgrepMigrationReadinessRecord {
    type V = RecordView;

    open spec fn view(&self) -> RecordView {
        RecordView {
            source_id: self.source_id@,
            language: self.language@,
            disposition: self.disposition,
            reason_code: self.reason_code,
        }
    }
}

pub open spec fn record_views(v: Seq<SemgrepMigrationReadinessRecord>) -> Seq<RecordView> {
    v.map_values(|r: SemgrepMigrationReadinessRecord| r@)
}

/// The reason for what became of a source rule. An emitted rule has the first note; of a rule that
/// was not emitted, an unusable document or file explains most.
pub open spec fn outcome_reason(
    emitted: bool,
    notes: Seq<SemgrepImportDiagnostic>,
) -> SemgrepMigrationReasonCode {
    if emitted {
        if notes.len() == 0 {
            SemgrepMigrationReasonCode::Exact
        } else {
            reason_of(notes[0])
        }
    } else if notes.contains(SemgrepImportDiagnostic::InvalidDocument) {
        SemgrepMigrationReasonCode::InvalidDocument
    } else if notes.contains(SemgrepImportDiagnostic::FileImportFailed) {
        SemgrepMigrationReasonCode::FileImportFailed
    } else if notes.len() > 0 {
        reason_of(notes[0])
    } else {
        SemgrepMigrationReasonCode::LoaderRejected
    }
}

/// What became of a source rule.
pub open spec fn outcome_disposition(
    emitted: bool,
    notes: Seq<SemgrepImportDiagnostic>,
) -> SemgrepMigrationDisposition {
    if !emitted {
        SemgrepMigrationDisposition::Skipped
    } else if notes.len() == 0 {
        SemgrepMigrationDisposition::Exact
    } else {
        SemgrepMigrationDisposition::Degraded
    }
}

/// The record of a source rule.
pub open spec fn record_of(source: SemgrepImportSourceOutcome) -> RecordView {
    RecordView {
        source_id: source.source_id@,
        language: source.language@,
        disposition: outcome_disposition(source.emitted, source.diagnostics@),
        reason_code: outcome_reason(source.emitted, source.diagnostics@),
    }
}

fn has_note(notes: &Vec<SemgrepImportDiagnostic>, note: SemgrepImportDiagnostic) -> (r: bool)
    ensures
        r == notes@.contains(note),
{
    let mut i: usize = 0;
    while i < notes.len()
        invariant
            i <= notes@.len(),
            forall|k: int| 0 <= k < i ==> #[trigger] notes@[k] != note,
        decreases notes@.len() - i,
    {
        if notes[i] == note {
            return true;
        }
        i = i + 1;
    }
    false
}

/// The record of a source rule.
pub fn readiness_record(source: &SemgrepImportSourceOutcome) -> (r: SemgrepMigrationReadinessRecord)
    ensures
        r@ == record_of(*source),
{
    let notes = &source.diagnostics;
    let reason_code = if source.emitted {
        if notes.len() == 0 {
            SemgrepMigrationReasonCode::Exact
        } else {
            reason_code(notes[0])
        }
    } else if has_note(notes, SemgrepImportDiagnostic::InvalidDocument) {
        SemgrepMigrationReasonCode::InvalidDocument
    } else if has_note(notes, SemgrepImportDiagnostic::FileImportFailed) {
        SemgrepMigrationReasonCode::FileImportFailed
    } else if notes.len() > 0 {
        reason_code(notes[0])
    } else {
        SemgrepMigrationReasonCode::LoaderRejected
    };
    let disposition = if !source.emitted {
        SemgrepMigrationDisposition::Skipped
    } else if notes.len() == 0 {
        SemgrepMigrationDisposition::Exact
    } else {
        SemgrepMigrationDisposition::Degraded
    };
    SemgrepMigrationReadinessRecord {
        source_id: source.source_id.clone(),
        language: source.language.clone(),
        disposition,
        reason_code,
    }
}

// ---------------------------------------------------------------------------
// The report
// ---------------------------------------------------------------------------

/// Records are ordered by source, language, disposition and reason.
pub open spec fn record_le(a: RecordView, b: RecordView) -> bool {
    if a.source_id != b.source_id {
        text_le(a.source_id, b.source_id)
    } else if a.language != b.language {
        text_le(a.language, b.language)
    } else if a.disposition != b.disposition {
        a.disposition.rank() <= b.disposition.rank()
    } else {
        a.reason_code.rank() <= b.reason_code.rank()
    }
}

pub open spec fn record_order() -> spec_fn(RecordView, RecordView) -> bool {
    |a: RecordView, b: RecordView| record_le(a, b)
}

fn record_at_most(
    a: &SemgrepMigrationReadinessRecord,
    b: &SemgrepMigrationReadinessRecord,
) -> (r: bool)
    ensures
        r == record_le(a@, b@),
{
    if !same(a.source_id.as_str(), b.source_id.as_str()) {
        at_most(a.source_id.as_str(), b.source_id.as_str())
    } else if !same(a.language.as_str(), b.language.as_str()) {
        at_most(a.language.as_str(), b.language.as_str())
    } else if a.disposition != b.disposition {
        a.disposition.position() <= b.disposition.position()
    } else {
        a.reason_code.position() <= b.reason_code.position()
    }
}

/// How many of the records have the disposition.
pub open spec fn count_disposition(
    records: Seq<RecordView>,
    d: SemgrepMigrationDisposition,
) -> nat {
    records.filter(|r: RecordView| r.disposition == d).len()
}

/// How many of the records have the reason.
pub open spec fn count_reason(records: Seq<RecordView>, c: SemgrepMigrationReasonCode) -> nat {
    records.filter(|r: RecordView| r.reason_code == c).len()
}

/// The records for a language.
pub open spec fn in_language(records: Seq<RecordView>, language: Seq<char>) -> Seq<RecordView> {
    records.filter(|r: RecordView| r.language == language)
}

/// The dispositions among the first `n` that occur, each with how often.
pub open spec fn disposition_totals(records: Seq<RecordView>, n: int) -> Seq<
    (SemgrepMigrationDisposition, nat),
>
    decreases n,
{
    if n <= 0 {
        Seq::empty()
    } else {
        let before = disposition_totals(records, n - 1);
        let d = all_dispositions()[n - 1];
        if count_disposition(records, d) > 0 {
            before.push((d, count_disposition(records, d)))
        } else {
            before
        }
    }
}

/// The reasons among the first `n` that occur, each with how often.
pub open spec fn reason_totals(records: Seq<RecordView>, n: int) -> Seq<
    (SemgrepMigrationReasonCode, nat),
>
    decreases n,
{
    if n <= 0 {
        Seq::empty()
    } else {
        let before = reason_totals(records, n - 1);
        let c = all_reasons()[n - 1];
        if count_reason(records, c) > 0 {
            before.push((c, count_reason(records, c)))
        } else {
            before
        }
    }
}

/// The languages of the first `n` records, each once.
pub open spec fn some_languages(records: Seq<RecordView>, n: int) -> Seq<Seq<char>>
    decreases n,
{
    if n <= 0 {
        Seq::empty()
    } else {
        let before = some_languages(records, n - 1);
        if before.contains(records[n - 1].language) {
            before
        } else {
            before.push(records[n - 1].language)
        }
    }
}

pub open spec fn text_order() -> spec_fn(Seq<char>, Seq<char>) -> bool {
    |a: Seq<char>, b: Seq<char>| text_le(a, b)
}

/// The languages of the records, each once, in order.
pub open spec fn languages_of(records: Seq<RecordView>) -> Seq<Seq<char>> {
    stable_sort(some_languages(records, records.len() as int), text_order())
}

/// The totals of each language.
pub open spec fn language_totals(records: Seq<RecordView>) -> Seq<
    (Seq<char>, Seq<(SemgrepMigrationDisposition, nat)>),
> {
    languages_of(records).map_values(
        |l: Seq<char>| (l, disposition_totals(in_language(records, l), 3)),
    )
}

/// A report on an imported rule pack.
#[derive(Debug, PartialEq, Eq)]
pub struct SemgrepMigrationReadinessReport {
    pub schema_version: String,
    pub records: Vec<SemgrepMigrationReadinessRecord>,
}

pub open spec fn totals_view<T>(v: Seq<(T, usize)>) -> Seq<(T, nat)> {
    v.map_values(|p: (T, usize)| (p.0, p.1 as nat))
}

/// The totals of one language.
#[derive(Debug)]
pub struct LanguageTotals {
    pub language: String,
    pub totals: Vec<(SemgrepMigrationDisposition, usize)>,
}

pub open spec fn language_totals_views(v: Seq<LanguageTotals>) -> Seq<
    (Seq<char>, Seq<(SemgrepMigrationDisposition, nat)>),
> {
    v.map_values(|t: LanguageTotals| (t.language@, totals_view(t.totals@)))
}

fn counted_disposition(
    records: &Vec<SemgrepMigrationReadinessRecord>,
    d: SemgrepMigrationDisposition,
) -> (r: usize)
    ensures
        r == count_disposition(record_views(records@), d),
{
    let ghost all = record_views(records@);
    let ghost p = |r: RecordView| r.disposition == d;
    let n: usize = records.len();
    let mut c: usize = 0;
    let mut i: usize = 0;
    proof {
        reveal(Seq::filter);
        assert(all.take(0) =~= Seq::<RecordView>::empty());
    }
    while i < n
        invariant
            i <= n,
            n == records@.len(),
            all == record_views(records@),
            p == (|r: RecordView| r.disposition == d),
            c <= i,
            c == all.take(i as int).filter(p).len(),
        decreases n - i,
    {
        proof {
            assert(all[i as int] == records@[i as int]@);
            assert(all.take(i + 1) =~= all.take(i as int).push(all[i as int]));
            all.take(i as int).lemma_filter_push(all[i as int], p);
        }
        if records[i].disposition == d {
            c = c + 1;
        }
        i = i + 1;
    }
    assert(all.take(n as int) =~= all);
    c
}

fn counted_in_language(
    records: &Vec<SemgrepMigrationReadinessRecord>,
    language: &str,
    d: SemgrepMigrationDisposition,
) -> (r: usize)
    ensures
        r == count_disposition(in_language(record_views(records@), language@), d),
{
    let ghost all = record_views(records@);
    let ghost p = |r: RecordView| r.disposition == d;
    let ghost q = |r: RecordView| r.language == language@;
    let n: usize = records.len();
    let mut c: usize = 0;
    let mut i: usize = 0;
    proof {
        reveal(Seq::filter);
        assert(all.take(0) =~= Seq::<RecordView>::empty());
    }
    while i < n
        invariant
            i <= n,
            n == records@.len(),
            all == record_views(records@),
            p == (|r: RecordView| r.disposition == d),
            q == (|r: RecordView| r.language == language@),
            c <= i,
            c == all.take(i as int).filter(q).filter(p).len(),
        decreases n - i,
    {
        proof {
            assert(all[i as int] == records@[i as int]@);
            assert(all.take(i + 1) =~= all.take(i as int).push(all[i as int]));
            all.take(i as int).lemma_filter_push(all[i as int], q);
            all.take(i as int).filter(q).lemma_filter_push(all[i as int], p);
        }
        if same(records[i].language.as_str(), language) && records[i].disposition == d {
            c = c + 1;
        }
        i = i + 1;
    }
    assert(all.take(n as int) =~= all);
    c
}

fn counted_reason(
    records: &Vec<SemgrepMigrationReadinessRecord>,
    code: SemgrepMigrationReasonCode,
) -> (r: usize)
    ensures
        r == count_reason(record_views(records@), code),
{
    let ghost all = record_views(records@);
    let ghost p = |r: RecordView| r.reason_code == code;
    let n: usize = records.len();
    let mut c: usize = 0;
    let mut i: usize = 0;
    proof {
        reveal(Seq::filter);
        assert(all.take(0) =~= Seq::<RecordView>::empty());
    }
    while i < n
        invariant
            i <= n,
            n == records@.len(),
            all == record_views(records@),
            p == (|r: RecordView| r.reason_code == code),
            c <= i,
            c == all.take(i as int).filter(p).len(),
        decreases n - i,
    {
        proof {
            assert(all[i as int] == records@[i as int]@);
            assert(all.take(i + 1) =~= all.take(i as int).push(all[i as int]));
            all.take(i as int).lemma_filter_push(all[i as int], p);
        }
        if records[i].reason_code == code {
            c = c + 1;
        }
        i = i + 1;
    }
    assert(all.take(n as int) =~= all);
    c
}

fn dispositions() -> (r: Vec<SemgrepMigrationDisposition>)
    ensures
        r@ == all_dispositions(),
{
    let r = vec![
        SemgrepMigrationDisposition::Exact,
        SemgrepMigrationDisposition::Degraded,
        SemgrepMigrationDisposition::Skipped,
    ];
    assert(r@ =~= all_dispositions());
    r
}

fn reasons() -> (r: Vec<SemgrepMigrationReasonCode>)
    ensures
        r@ == all_reasons(),
{
    let r = vec![
        SemgrepMigrationReasonCode::Exact,
        SemgrepMigrationReasonCode::UnsupportedFixRegex,
        SemgrepMigrationReasonCode::UnsupportedLanguage,
        SemgrepMigrationReasonCode::UnsupportedMode,
        SemgrepMigrationReasonCode::UnsupportedConstruct,
        SemgrepMigrationReasonCode::UnsupportedTaintShape,
        SemgrepMigrationReasonCode::UnsupportedPatternEitherRegex,
        SemgrepMigrationReasonCode::UnsupportedPatternNotRegex,
        SemgrepMigrationReasonCode::UnsupportedPatternRegex,
        SemgrepMigrationReasonCode::EngineCodeql,
        SemgrepMigrationReasonCode::EngineCoccinelle,
        SemgrepMigrationReasonCode::InvalidRule,
        SemgrepMigrationReasonCode::InvalidDocument,
        SemgrepMigrationReasonCode::FileImportFailed,
        SemgrepMigrationReasonCode::LoaderRejected,
    ];
    assert(r@ =~= all_reasons());
    r
}

impl SemgrepMigrationReadinessReport {
    /// The report on the given records, in order.
    pub fn new(records: Vec<SemgrepMigrationReadinessRecord>) -> (r: Self)
        ensures
            r.schema_version@ == SEMGREP_MIGRATION_READINESS_SCHEMA_VERSION@,
            record_views(r.records@) == stable_sort(record_views(records@), record_order()),
    {
        let mut sorted = records;
        let ghost le = |a: SemgrepMigrationReadinessRecord, b: SemgrepMigrationReadinessRecord|
            record_le(a@, b@);
        proof {
            lemma_sort_map(
                sorted@,
                le,
                |r: SemgrepMigrationReadinessRecord| r@,
                record_order(),
            );
        }
        sort_stable(&mut sorted, record_at_most, Ghost(le));
        SemgrepMigrationReadinessReport {
            schema_version: owned(SEMGREP_MIGRATION_READINESS_SCHEMA_VERSION),
            records: sorted,
        }
    }

    /// How often each disposition occurs, in order.
    pub fn total_by_disposition(&self) -> (r: Vec<(SemgrepMigrationDisposition, usize)>)
        ensures
            totals_view(r@) == disposition_totals(record_views(self.records@), 3),
    {
        let ghost all = record_views(self.records@);
        let kinds = dispositions();
        let mut r: Vec<(SemgrepMigrationDisposition, usize)> = Vec::new();
        assert(totals_view(r@) =~= Seq::<(SemgrepMigrationDisposition, nat)>::empty());
        let mut i: usize = 0;
        while i < 3
            invariant
                i <= 3,
                kinds@ == all_dispositions(),
                all == record_views(self.records@),
                totals_view(r@) == disposition_totals(all, i as int),
            decreases 3 - i,
        {
            let c: usize = counted_disposition(&self.records, kinds[i]);
            if c > 0 {
                let p = (kinds[i], c);
                assert(totals_view(r@.push(p)) =~= totals_view(r@).push((p.0, p.1 as nat)));
                r.push(p);
            }
            i = i + 1;
        }
        r
    }

    /// How often each reason occurs, in order.
    pub fn total_by_reason(&self) -> (r: Vec<(SemgrepMigrationReasonCode, usize)>)
        ensures
            totals_view(r@) == reason_totals(record_views(self.records@), 15),
    {
        let ghost all = record_views(self.records@);
        let kinds = reasons();
        let mut r: Vec<(SemgrepMigrationReasonCode, usize)> = Vec::new();
        assert(totals_view(r@) =~= Seq::<(SemgrepMigrationReasonCode, nat)>::empty());
        let mut i: usize = 0;
        while i < 15
            invariant
                i <= 15,
                kinds@ == all_reasons(),
                all == record_views(self.records@),
                totals_view(r@) == reason_totals(all, i as int),
            decreases 15 - i,
        {
            let c: usize = counted_reason(&self.records, kinds[i]);
            if c > 0 {
                let p = (kinds[i], c);
                assert(totals_view(r@.push(p)) =~= totals_view(r@).push((p.0, p.1 as nat)));
                r.push(p);
            }
            i = i + 1;
        }
        r
    }

    fn languages(&self) -> (r: Vec<String>)
        ensures
            texts(r@) == languages_of(record_views(self.records@)),
    {
        let ghost all = record_views(self.records@);
        let mut r: Vec<String> = Vec::new();
        assert(texts(r@) =~= Seq::<Seq<char>>::empty());
        let mut i: usize = 0;
        while i < self.records.len()
            invariant
                i <= self.records@.len(),
                all == record_views(self.records@),
                texts(r@) == some_languages(all, i as int),
            decreases self.records@.len() - i,
        {
            assert(all[i as int] == self.records@[i as int]@);
            if !contains_string(&r, self.records[i].language.as_str()) {
                let l = self.records[i].language.clone();
                proof {
                    lemma_texts_push(r@, l);
                }
                r.push(l);
            }
            i = i + 1;
        }
        let ghost le = |a: String, b: String| text_le(a@, b@);
        proof {
            lemma_sort_map(r@, le, |s: String| s@, text_order());
        }
        sort_stable(&mut r, string_at_most, Ghost(le));
        r
    }

    /// How often each disposition occurs in each language, both in order.
    pub fn total_by_language(&self) -> (r: Vec<LanguageTotals>)
        ensures
            language_totals_views(r@) == language_totals(record_views(self.records@)),
    {
        let ghost all = record_views(self.records@);
        let languages = self.languages();
        let ghost goal = language_totals(all);
        let mut r: Vec<LanguageTotals> = Vec::new();
        assert(language_totals_views(r@) =~= goal.take(0));
        let mut i: usize = 0;
        while i < languages.len()
            invariant
                i <= languages@.len(),
                all == record_views(self.records@),
                texts(languages@) == languages_of(all),
                goal == language_totals(all),
                language_totals_views(r@) == goal.take(i as int),
            decreases languages@.len() - i,
        {
            let language = languages[i].clone();
            let totals = self.totals_in(language.as_str());
            let t = LanguageTotals { language, totals };
            proof {
                assert(texts(languages@)[i as int] == language@);
                assert(goal[i as int] == (language@, disposition_totals(in_language(all, language@), 3)));
                assert(language_totals_views(r@.push(t)) =~= language_totals_views(r@).push(
                    goal[i as int],
                ));
                assert(goal.take(i + 1) =~= goal.take(i as int).push(goal[i as int]));
            }
            r.push(t);
            i = i + 1;
        }
        proof {
            assert(texts(languages@).len() == languages@.len());
            assert(goal.take(i as int) =~= goal);
        }
        r
    }

    fn totals_in(&self, language: &str) -> (r: Vec<(SemgrepMigrationDisposition, usize)>)
        ensures
            totals_view(r@) == disposition_totals(
                in_language(record_views(self.records@), language@),
                3,
            ),
    {
        let ghost all = in_language(record_views(self.records@), language@);
        let kinds = dispositions();
        let mut r: Vec<(SemgrepMigrationDisposition, usize)> = Vec::new();
        assert(totals_view(r@) =~= Seq::<(SemgrepMigrationDisposition, nat)>::empty());
        let mut i: usize = 0;
        while i < 3
            invariant
                i <= 3,
                kinds@ == all_dispositions(),
                all == in_language(record_views(self.records@), language@),
                totals_view(r@) == disposition_totals(all, i as int),
            decreases 3 - i,
        {
            let c: usize = counted_in_language(&self.records, language, kinds[i]);
            if c > 0 {
                let p = (kinds[i], c);
                assert(totals_view(r@.push(p)) =~= totals_view(r@).push((p.0, p.1 as nat)));
                r.push(p);
            }
            i = i + 1;
        }
        r
    }
}

fn string_at_most(a: &String, b: &String) -> (r: bool)
    ensures
        r == text_le(a@, b@),
{
    at_most(a.as_str(), b.as_str())
}

// ---------------------------------------------------------------------------
// Assessing a pack
// ---------------------------------------------------------------------------

/// The file is a rule file, by its extension.
pub open spec fn yaml_path(path: Seq<char>) -> bool {
    match last_name(path) {
        None => false,
        Some(name) => match after_last_char(name, '.') {
            Some(e) => (e == "yaml"@ || e == "yml"@) && name.len() > e.len() + 1,
            None => false,
        },
    }
}

/// Whether the file is a rule file, by its extension. What follows a single dot at the beginning of
/// a name is no extension.
pub fn is_semgrep_yaml(path: &str) -> (r: bool)
    ensures
        r == yaml_path(path@),
{
    match file_name(path) {
        None => false,
        Some(name) => match after_last(name.as_str(), '.') {
            Some(e) => (same(e.as_str(), "yaml") || same(e.as_str(), "yml")) && chars_of(
                name.as_str(),
            ).len() - 1 > chars_of(e.as_str()).len(),
            None => false,
        },
    }
}

/// The records of the first `n` files, one file after the other.
pub open spec fn pack_records(files: Seq<Vec<SemgrepImportSourceOutcome>>, n: int) -> Seq<RecordView>
    decreases n,
{
    if n <= 0 {
        Seq::empty()
    } else {
        pack_records(files, n - 1) + files[n - 1]@.map_values(
            |s: SemgrepImportSourceOutcome| record_of(s),
        )
    }
}

/// The report on a rule pack at a path, from what the import made of each of its files; nothing is
/// given where the path does not exist.
pub fn assess_semgrep_migration_readiness(
    path: &str,
    files: &Option<Vec<Vec<SemgrepImportSourceOutcome>>>,
) -> (r: Result<SemgrepMigrationReadinessReport, String>)
    ensures
        match *files {
            None => r matches Err(e) && e@ == "Semgrep rule pack path does not exist: "@ + path@,
            Some(all) => r matches Ok(report) && report.schema_version@
                == SEMGREP_MIGRATION_READINESS_SCHEMA_VERSION@ && record_views(report.records@)
                == stable_sort(pack_records(all@, all@.len() as int), record_order()),
        },
{
    let all = match files {
        Some(all) => all,
        None => {
            let mut e: String = owned("Semgrep rule pack path does not exist: ");
            e.append(path);
            return Err(e);
        },
    };
    let mut records: Vec<SemgrepMigrationReadinessRecord> = Vec::new();
    assert(record_views(records@) =~= Seq::<RecordView>::empty());
    let mut i: usize = 0;
    while i < all.len()
        invariant
            i <= all@.len(),
            record_views(records@) == pack_records(all@, i as int),
        decreases all@.len() - i,
    {
        let sources = &all[i];
        let ghost before = record_views(records@);
        let ghost these = sources@.map_values(|s: SemgrepImportSourceOutcome| record_of(s));
        let mut j: usize = 0;
        assert(before + these.take(0) =~= before);
        while j < sources.len()
            invariant
                j <= sources@.len(),
                these == sources@.map_values(|s: SemgrepImportSourceOutcome| record_of(s)),
                record_views(records@) == before + these.take(j as int),
            decreases sources@.len() - j,
        {
            let record = readiness_record(&sources[j]);
            proof {
                assert(these[j as int] == record@);
                assert(record_views(records@.push(record)) =~= record_views(records@).push(
                    record@,
                ));
                assert(before + these.take(j + 1) =~= (before + these.take(j as int)).push(
                    record@,
                ));
            }
            records.push(record);
            j = j + 1;
        }
        assert(these.take(j as int) =~= these);
        i = i + 1;
    }
    Ok(SemgrepMigrationReadinessReport::new(records))
}

// ---------------------------------------------------------------------------
// Laws
// ---------------------------------------------------------------------------

proof fn lemma_record_order()
    ensures
        total_preorder(record_order()),
        forall|a: RecordView, b: RecordView| #[trigger]
            record_le(a, b) && record_le(b, a) ==> a == b,
{
    let le = record_order();
    assert forall|a: RecordView| #[trigger] le(a, a) by {}
    assert forall|a: RecordView, b: RecordView| #[trigger] le(a, b) || le(b, a) by {
        lemma_text_le_total(a.source_id, b.source_id);
        lemma_text_le_total(a.language, b.language);
    }
    assert forall|a: RecordView, b: RecordView, c: RecordView| #[trigger]
        le(a, b) && #[trigger] le(b, c) implies le(a, c) by {
        if a.source_id != b.source_id || b.source_id != c.source_id {
            lemma_text_le_reflexive(a.source_id);
            lemma_text_le_reflexive(b.source_id);
            lemma_text_le_transitive(a.source_id, b.source_id, c.source_id);
            if a.source_id == c.source_id {
                lemma_text_le_antisymmetric(a.source_id, b.source_id);
            }
        } else if a.language != b.language || b.language != c.language {
            lemma_text_le_reflexive(a.language);
            lemma_text_le_reflexive(b.language);
            lemma_text_le_transitive(a.language, b.language, c.language);
            if a.language == c.language {
                lemma_text_le_antisymmetric(a.language, b.language);
            }
        }
    }
    assert forall|a: RecordView, b: RecordView| #[trigger]
        record_le(a, b) && record_le(b, a) implies a == b by {
        if a.source_id != b.source_id {
            lemma_text_le_antisymmetric(a.source_id, b.source_id);
        } else if a.language != b.language {
            lemma_text_le_antisymmetric(a.language, b.language);
        }
    }
}

/// The report does not depend on the order in which records are found: the same records, in any
/// order, give the same report.
pub proof fn reports_ignore_the_order_of_records(a: Seq<RecordView>, b: Seq<RecordView>)
    requires
        a.to_multiset() == b.to_multiset(),
    ensures
        stable_sort(a, record_order()) == stable_sort(b, record_order()),
{
    lemma_record_order();
    sorting_orders_and_permutes(a, record_order());
    sorting_orders_and_permutes(b, record_order());
    let x = stable_sort(a, record_order());
    let y = stable_sort(b, record_order());
    let leq = record_order();
    assert(vstd::relations::total_ordering(leq)) by {
        assert(vstd::relations::reflexive(leq));
        assert(vstd::relations::antisymmetric(leq)) by {
            assert forall|p: RecordView, q: RecordView| #[trigger]
                leq(p, q) && #[trigger] leq(q, p) implies p == q by {
                assert(record_le(p, q));
            }
        }
        assert(vstd::relations::transitive(leq));
        assert(vstd::relations::strongly_connected(leq));
    }
    assert forall|i: int, j: int| 0 <= i < j < x.len() implies #[trigger] leq(x[i], x[j]) by {}
    assert forall|i: int, j: int| 0 <= i < j < y.len() implies #[trigger] leq(y[i], y[j]) by {}
    vstd::seq_lib::lemma_sorted_unique(x, y, leq);
}

/// A rule is exact exactly where it was emitted without a note, and skipped exactly where it was not
/// emitted.
pub proof fn exact_means_emitted_without_notes(source: SemgrepImportSourceOutcome)
    ensures
        (record_of(source).disposition == SemgrepMigrationDisposition::Exact) == (source.emitted
            && source.diagnostics@.len() == 0),
        (record_of(source).disposition == SemgrepMigrationDisposition::Exact) == (record_of(
            source,
        ).reason_code == SemgrepMigrationReasonCode::Exact),
        (record_of(source).disposition == SemgrepMigrationDisposition::Skipped) == !source.emitted,
{
}

/// Every record is counted once: the totals of the dispositions add up to the number of records.
pub proof fn dispositions_cover_all_records(records: Seq<RecordView>)
    ensures
        count_disposition(records, SemgrepMigrationDisposition::Exact) + count_disposition(
            records,
            SemgrepMigrationDisposition::Degraded,
        ) + count_disposition(records, SemgrepMigrationDisposition::Skipped) == records.len(),
    decreases records.len(),
{
    reveal(Seq::filter);
    if records.len() > 0 {
        dispositions_cover_all_records(records.drop_last());
    }
}

} // verus!
