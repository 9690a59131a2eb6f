//! Findings, their severities and the languages they are found in.

use crate::text::{opt_text, same, texts};
use vstd::prelude::*;

verus! {

/// How serious a finding is, from the least to the most.
#[derive(Debug, Clone, Copy, PartialEq, Eq, PartialOrd, Ord, Hash, Structural)]
pub enum Severity {
    Low,
    Medium,
    High,
    Critical,
}

impl Severity {
    /// The position of the severity in ascending order.
    pub open spec fn rank(self) -> nat {
        match self {
            Severity::Low => 0,
            Severity::Medium => 1,
            Severity::High => 2,
            Severity::Critical => 3,
        }
    }

    /// The lower-case word for the severity.
    pub open spec fn word(self) -> Seq<char> {
        match self {
            Severity::Low => "low"@,
            Severity::Medium => "medium"@,
            Severity::High => "high"@,
            Severity::Critical => "critical"@,
        }
    }

    /// Whether the severity is `other` or worse.
    pub fn at_least(self, other: Severity) -> (r: bool)
        ensures
            r == (self.rank() >= other.rank()),
    {
        match other {
            Severity::Low => true,
            Severity::Medium => match self {
                Severity::Low => false,
                _ => true,
            },
            Severity::High => match self {
                Severity::High => true,
                Severity::Critical => true,
                _ => false,
            },
            Severity::Critical => match self {
                Severity::Critical => true,
                _ => false,
            },
        }
    }

    /// The lower-case word for the severity.
    pub fn as_str(self) -> (r: &'static str)
        ensures
            r@ == self.word(),
    {
        match self {
            Severity::Low => "low",
            Severity::Medium => "medium",
            Severity::High => "high",
            Severity::Critical => "critical",
        }
    }
}

/// The single-precision bit pattern of full confidence.
pub const FULL_CONFIDENCE: u32 = 0x3f80_0000;

/// The tag carried by findings that record post-quantum-ready cryptography.
pub const PQ_READY_TAG: &'static str = "pq-ready";

/// One reported problem, with where it is and what is known of it.
///
/// `confidence` is the bit pattern of a single-precision number between zero and one; for such
/// numbers the order of the patterns is the order of the numbers.
#[derive(Debug, Hash, PartialEq, Eq)]
pub struct Finding {
    pub rule_id: String,
    pub severity: Severity,
    pub cwe: Option<String>,
    pub description: String,
    pub file: String,
    pub line: usize,
    pub column: usize,
    pub end_line: usize,
    pub end_column: usize,
    pub snippet: String,
    pub source_line: Option<usize>,
    pub source_description: Option<String>,
    pub sink_line: Option<usize>,
    pub sink_description: Option<String>,
    pub fix_suggestion: Option<String>,
    pub sink_start_byte: Option<usize>,
    pub sink_end_byte: Option<usize>,
    pub confidence: u32,
    pub taint_hops: Option<usize>,
    pub tags: Vec<String>,
    pub crypto_algorithm: Option<String>,
    pub cnsa2_deadline: Option<String>,
    pub dep_name: Option<String>,
    pub dep_version: Option<String>,
    pub dep_ecosystem: Option<String>,
    pub dep_purl: Option<String>,
    pub dep_vulnerability_id: Option<String>,
    pub dep_fixed_version: Option<String>,
    pub dep_source: Option<String>,
    pub dep_vulnerability_severity: Option<String>,
    pub dep_path: Vec<String>,
    pub crypto_material: Option<String>,
}

/// What a [`Finding`] holds, with its strings as texts.
#[verifier::ext_equal]
pub struct FindingView {
    pub rule_id: Seq<char>,
    pub severity: Severity,
    pub cwe: Option<Seq<char>>,
    pub description: Seq<char>,
    pub file: Seq<char>,
    pub line: usize,
    pub column: usize,
    pub end_line: usize,
    pub end_column: usize,
    pub snippet: Seq<char>,
    pub source_line: Option<usize>,
    pub source_description: Option<Seq<char>>,
    pub sink_line: Option<usize>,
    pub sink_description: Option<Seq<char>>,
    pub fix_suggestion: Option<Seq<char>>,
    pub sink_start_byte: Option<usize>,
    pub sink_end_byte: Option<usize>,
    pub confidence: u32,
    pub taint_hops: Option<usize>,
    pub tags: Seq<Seq<char>>,
    pub crypto_algorithm: Option<Seq<char>>,
    pub cnsa2_deadline: Option<Seq<char>>,
    pub dep_name: Option<Seq<char>>,
    pub dep_version: Option<Seq<char>>,
    pub dep_ecosystem: Option<Seq<char>>,
    pub dep_purl: Option<Seq<char>>,
    pub dep_vulnerability_id: Option<Seq<char>>,
    pub dep_fixed_version: Option<Seq<char>>,
    pub dep_source: Option<Seq<char>>,
    pub dep_vulnerability_severity: Option<Seq<char>>,
    pub dep_path: Seq<Seq<char>>,
    pub crypto_material: Option<Seq<char>>,
}

impl View for Finding {
    type V = FindingView;

    open spec fn view(&self) -> FindingView {
        FindingView {
            rule_id: self.rule_id@,
            severity: self.severity,
            cwe: opt_text(self.cwe),
            description: self.description@,
            file: self.file@,
            line: self.line,
            column: self.column,
            end_line: self.end_line,
            end_column: self.end_column,
            snippet: self.snippet@,
            source_line: self.source_line,
            source_description: opt_text(self.source_description),
            sink_line: self.sink_line,
            sink_description: opt_text(self.sink_description),
            fix_suggestion: opt_text(self.fix_suggestion),
            sink_start_byte: self.sink_start_byte,
            sink_end_byte: self.sink_end_byte,
            confidence: self.confidence,
            taint_hops: self.taint_hops,
            tags: texts(self.tags@),
            crypto_algorithm: opt_text(self.crypto_algorithm),
            cnsa2_deadline: opt_text(self.cnsa2_deadline),
            dep_name: opt_text(self.dep_name),
            dep_version: opt_text(self.dep_version),
            dep_ecosystem: opt_text(self.dep_ecosystem),
            dep_purl: opt_text(self.dep_purl),
            dep_vulnerability_id: opt_text(self.dep_vulnerability_id),
            dep_fixed_version: opt_text(self.dep_fixed_version),
            dep_source: opt_text(self.dep_source),
            dep_vulnerability_severity: opt_text(self.dep_vulnerability_severity),
            dep_path: texts(self.dep_path@),
            crypto_material: opt_text(self.crypto_material),
        }
    }
}

/// The contents of a list of findings.
pub open spec fn finding_views(v: Seq<Finding>) -> Seq<FindingView> {
    v.map_values(|f: Finding| f@)
}

/// A copy of an optional string.
pub fn copy_opt(o: &Option<String>) -> (r: Option<String>)
    ensures
        opt_text(r) == opt_text(*o),
{
    match o {
        Some(s) => Some(s.clone()),
        None => None,
    }
}

/// A copy of a list of strings.
pub fn copy_strings(v: &Vec<String>) -> (r: Vec<String>)
    ensures
        texts(r@) == texts(v@),
{
    let mut r: Vec<String> = Vec::new();
    let mut i: usize = 0;
    while i < v.len()
        invariant
            i <= v@.len(),
            texts(r@) =~= texts(v@.take(i as int)),
        decreases v@.len() - i,
    {
        let s = v[i].clone();
        proof {
            crate::text::lemma_texts_push(r@, s);
        }
        r.push(s);
        i = i + 1;
    }
    assert(v@.take(i as int) =~= v@);
    r
}

impl Clone for Finding {
    fn clone(&self) -> (r: Self)
        ensures
            r@ == self@,
    {
        Finding {
            rule_id: self.rule_id.clone(),
            severity: self.severity,
            cwe: copy_opt(&self.cwe),
            description: self.description.clone(),
            file: self.file.clone(),
            line: self.line,
            column: self.column,
            end_line: self.end_line,
            end_column: self.end_column,
            snippet: self.snippet.clone(),
            source_line: self.source_line,
            source_description: copy_opt(&self.source_description),
            sink_line: self.sink_line,
            sink_description: copy_opt(&self.sink_description),
            fix_suggestion: copy_opt(&self.fix_suggestion),
            sink_start_byte: self.sink_start_byte,
            sink_end_byte: self.sink_end_byte,
            confidence: self.confidence,
            taint_hops: self.taint_hops,
            tags: copy_strings(&self.tags),
            crypto_algorithm: copy_opt(&self.crypto_algorithm),
            cnsa2_deadline: copy_opt(&self.cnsa2_deadline),
            dep_name: copy_opt(&self.dep_name),
            dep_version: copy_opt(&self.dep_version),
            dep_ecosystem: copy_opt(&self.dep_ecosystem),
            dep_purl: copy_opt(&self.dep_purl),
            dep_vulnerability_id: copy_opt(&self.dep_vulnerability_id),
            dep_fixed_version: copy_opt(&self.dep_fixed_version),
            dep_source: copy_opt(&self.dep_source),
            dep_vulnerability_severity: copy_opt(&self.dep_vulnerability_severity),
            dep_path: copy_strings(&self.dep_path),
            crypto_material: copy_opt(&self.crypto_material),
        }
    }
}

impl FindingView {
    /// The finding records post-quantum-ready cryptography.
    pub open spec fn pq_ready(self) -> bool {
        self.tags.contains(PQ_READY_TAG@)
    }

    /// A finding of the given rule and place about which nothing else is known.
    pub open spec fn plain(
        rule_id: Seq<char>,
        severity: Severity,
        cwe: Option<Seq<char>>,
        description: Seq<char>,
        file: Seq<char>,
        place: Place,
        snippet: Seq<char>,
    ) -> FindingView {
        FindingView {
            rule_id,
            severity,
            cwe,
            description,
            file,
            line: place.line,
            column: place.column,
            end_line: place.end_line,
            end_column: place.end_column,
            snippet,
            source_line: None,
            source_description: None,
            sink_line: None,
            sink_description: None,
            fix_suggestion: None,
            sink_start_byte: None,
            sink_end_byte: None,
            confidence: FULL_CONFIDENCE,
            taint_hops: None,
            tags: Seq::empty(),
            crypto_algorithm: None,
            cnsa2_deadline: None,
            dep_name: None,
            dep_version: None,
            dep_ecosystem: None,
            dep_purl: None,
            dep_vulnerability_id: None,
            dep_fixed_version: None,
            dep_source: None,
            dep_vulnerability_severity: None,
            dep_path: Seq::empty(),
            crypto_material: None,
        }
    }
}

/// Where a finding begins and ends, in lines and columns that count from one.
#[derive(Debug, Clone, Copy, PartialEq, Eq, Structural)]
pub struct Place {
    pub line: usize,
    pub column: usize,
    pub end_line: usize,
    pub end_column: usize,
}

impl Finding {
    /// A finding of the given rule and place about which nothing else is known.
    pub fn plain(
        rule_id: String,
        severity: Severity,
        cwe: Option<String>,
        description: String,
        file: String,
        place: Place,
        snippet: String,
    ) -> (r: Finding)
        ensures
            r@ == FindingView::plain(
                rule_id@,
                severity,
                opt_text(cwe),
                description@,
                file@,
                place,
                snippet@,
            ),
    {
        let tags: Vec<String> = Vec::new();
        let dep_path: Vec<String> = Vec::new();
        assert(texts(tags@) =~= Seq::<Seq<char>>::empty());
        assert(texts(dep_path@) =~= Seq::<Seq<char>>::empty());
        Finding {
            rule_id,
            severity,
            cwe,
            description,
            file,
            line: place.line,
            column: place.column,
            end_line: place.end_line,
            end_column: place.end_column,
            snippet,
            source_line: None,
            source_description: None,
            sink_line: None,
            sink_description: None,
            fix_suggestion: None,
            sink_start_byte: None,
            sink_end_byte: None,
            confidence: FULL_CONFIDENCE,
            taint_hops: None,
            tags,
            crypto_algorithm: None,
            cnsa2_deadline: None,
            dep_name: None,
            dep_version: None,
            dep_ecosystem: None,
            dep_purl: None,
            dep_vulnerability_id: None,
            dep_fixed_version: None,
            dep_source: None,
            dep_vulnerability_severity: None,
            dep_path,
            crypto_material: None,
        }
    }

    /// Whether the finding records post-quantum-ready cryptography.
    pub fn is_pq_ready(&self) -> (r: bool)
        ensures
            r == self@.pq_ready(),
    {
        let mut i: usize = 0;
        while i < self.tags.len()
            invariant
                i <= self.tags@.len(),
                forall|j: int| 0 <= j < i ==> self.tags@[j]@ != PQ_READY_TAG@,
            decreases self.tags@.len() - i,
        {
            if same(self.tags[i].as_str(), PQ_READY_TAG) {
                proof {
                    assert(self@.tags[i as int] == PQ_READY_TAG@);
                }
                return true;
            }
            i = i + 1;
        }
        false
    }
}

pub proof fn lemma_finding_views_push(v: Seq<Finding>, f: Finding)
    ensures
        finding_views(v.push(f)) == finding_views(v).push(f@),
{
    assert(finding_views(v.push(f)) =~= finding_views(v).push(f@));
}

/// Copies of a list of findings.
pub fn copy_findings(v: &[Finding]) -> (r: Vec<Finding>)
    ensures
        finding_views(r@) == finding_views(v@),
{
    let mut r: Vec<Finding> = Vec::new();
    let mut i: usize = 0;
    while i < v.len()
        invariant
            i <= v@.len(),
            finding_views(r@) =~= finding_views(v@.take(i as int)),
        decreases v@.len() - i,
    {
        let f = v[i].clone();
        proof {
            lemma_finding_views_push(r@, f);
            assert(v@.take(i + 1) =~= v@.take(i as int).push(v@[i as int]));
            lemma_finding_views_push(v@.take(i as int), v@[i as int]);
        }
        r.push(f);
        i = i + 1;
    }
    assert(v@.take(i as int) =~= v@);
    r
}

/// The languages and file kinds that rules apply to.
#[derive(Debug, Clone, Copy, PartialEq, Eq, Hash, Structural)]
pub enum Language {
    JavaScript,
    TypeScript,
    Tsx,
    Python,
    Go,
    Ruby,
    Java,
    Php,
    Rust,
    CSharp,
    Swift,
    Kotlin,
    C,
    Bash,
    NginxConf,
    ApacheConf,
    HAProxyConf,
    Dockerfile,
    Manifest,
}

} // verus!
