//! Finding credentials in text, and keeping them out of what is shown.

use crate::bytes::{lemma_encode_concat, slice_bytes, text_from_bytes, utf8_lossy};
use crate::finding::{
    copy_strings, finding_views, lemma_finding_views_push, Finding, FindingView, Place, Severity,
};
use crate::paths::{components, part_views, parts_under, path_parts, PartView, PathPart};
use crate::sort::{
    ascending, sort_stable, sorting_orders_and_permutes, stable_sort, total_preorder,
};
use crate::text::{
    at_most, contains_string, decimal, decimal_string, lemma_text_le_antisymmetric,
    lemma_text_le_reflexive, lemma_text_le_total, lemma_text_le_transitive, lemma_texts_push, lines,
    lines_of, opt_text, owned, same, text_le, texts, trim, trim_text,
};
use vstd::prelude::*;
use vstd::utf8::{
    encode_utf8, encode_utf8_valid_utf8, is_char_boundary, is_char_boundary_start_end_of_seq,
};

verus! {

// ---------------------------------------------------------------------------
// What is looked for
// ---------------------------------------------------------------------------

/// A kind of credential.
#[derive(Debug, Clone, Copy)]
pub struct SecretPattern {
    pub rule_id: &'static str,
    pub severity: Severity,
    pub cwe: &'static str,
    pub description: &'static str,
    /// The regular expression that recognises it.
    pub regex: &'static str,
}

pub struct PatternView {
    pub rule_id: Seq<char>,
    pub severity: Severity,
    pub cwe: Seq<char>,
    pub description: Seq<char>,
    pub regex: Seq<char>,
}

impl View for SecretPattern {
    type V = PatternView;

    open spec fn view(&self) -> PatternView {
        PatternView {
            rule_id: self.rule_id@,
            severity: self.severity,
            cwe: self.cwe@,
            description: self.description@,
            regex: self.regex@,
        }
    }
}

pub open spec fn pattern_views(v: Seq<SecretPattern>) -> Seq<PatternView> {
    v.map_values(|p: SecretPattern| p@)
}

/// The kinds of credential that are recognised.
pub open spec fn secret_patterns() -> Seq<PatternView> {
    seq![
        PatternView {
            rule_id: "secret/aws-access-key-id"@,
            severity: Severity::Critical,
            cwe: "CWE-798"@,
            description: "Possible AWS access key ID detected"@,
            regex: r"\bAKIA[0-9A-Z]{16}\b"@,
        },
        PatternView {
            rule_id: "secret/aws-secret-access-key"@,
            severity: Severity::Critical,
            cwe: "CWE-798"@,
            description: "Possible AWS secret access key detected"@,
            regex: r#"(?i)\baws_secret_access_key\b\s*[:=]\s*["']?[A-Za-z0-9/+=]{40}["']?"#@,
        },
        PatternView {
            rule_id: "secret/github-token"@,
            severity: Severity::Critical,
            cwe: "CWE-798"@,
            description: "Possible GitHub personal access token detected"@,
            regex: r"\bghp_[A-Za-z0-9]{36}\b|\bgithub_pat_[A-Za-z0-9_]{20,}\b"@,
        },
        PatternView {
            rule_id: "secret/gitlab-token"@,
            severity: Severity::Critical,
            cwe: "CWE-798"@,
            description: "Possible GitLab personal access token detected"@,
            regex: r"\bglpat-[A-Za-z0-9\-_]{20,}\b"@,
        },
        PatternView {
            rule_id: "secret/npm-token"@,
            severity: Severity::High,
            cwe: "CWE-798"@,
            description: "Possible npm access token detected"@,
            regex: r"\bnpm_[A-Za-z0-9]{36}\b"@,
        },
        PatternView {
            rule_id: "secret/slack-token"@,
            severity: Severity::High,
            cwe: "CWE-798"@,
            description: "Possible Slack token detected"@,
            regex: r"\bxox[baprs]-[A-Za-z0-9-]{10,}\b"@,
        },
        PatternView {
            rule_id: "secret/stripe-live-key"@,
            severity: Severity::Critical,
            cwe: "CWE-798"@,
            description: "Possible Stripe live secret key detected"@,
            regex: r"\b(?:sk|rk)_live_[0-9A-Za-z]{16,}\b"@,
        },
        PatternView {
            rule_id: "secret/private-key"@,
            severity: Severity::Critical,
            cwe: "CWE-798"@,
            description: "Private key material detected"@,
            regex: r"-----BEGIN (?:RSA |DSA |EC |OPENSSH )?PRIVATE KEY-----"@,
        },
    ]
}

/// The kinds of credential that are recognised.
pub fn patterns() -> (r: Vec<SecretPattern>)
    ensures
        pattern_views(r@) == secret_patterns(),
{
    let r: Vec<SecretPattern> = vec![
        SecretPattern {
            rule_id: "secret/aws-access-key-id",
            severity: Severity::Critical,
            cwe: "CWE-798",
            description: "Possible AWS access key ID detected",
            regex: r"\bAKIA[0-9A-Z]{16}\b",
        },
        SecretPattern {
            rule_id: "secret/aws-secret-access-key",
            severity: Severity::Critical,
            cwe: "CWE-798",
            description: "Possible AWS secret access key detected",
            regex: r#"(?i)\baws_secret_access_key\b\s*[:=]\s*["']?[A-Za-z0-9/+=]{40}["']?"#,
        },
        SecretPattern {
            rule_id: "secret/github-token",
            severity: Severity::Critical,
            cwe: "CWE-798",
            description: "Possible GitHub personal access token detected",
            regex: r"\bghp_[A-Za-z0-9]{36}\b|\bgithub_pat_[A-Za-z0-9_]{20,}\b",
        },
        SecretPattern {
            rule_id: "secret/gitlab-token",
            severity: Severity::Critical,
            cwe: "CWE-798",
            description: "Possible GitLab personal access token detected",
            regex: r"\bglpat-[A-Za-z0-9\-_]{20,}\b",
        },
        SecretPattern {
            rule_id: "secret/npm-token",
            severity: Severity::High,
            cwe: "CWE-798",
            description: "Possible npm access token detected",
            regex: r"\bnpm_[A-Za-z0-9]{36}\b",
        },
        SecretPattern {
            rule_id: "secret/slack-token",
            severity: Severity::High,
            cwe: "CWE-798",
            description: "Possible Slack token detected",
            regex: r"\bxox[baprs]-[A-Za-z0-9-]{10,}\b",
        },
        SecretPattern {
            rule_id: "secret/stripe-live-key",
            severity: Severity::Critical,
            cwe: "CWE-798",
            description: "Possible Stripe live secret key detected",
            regex: r"\b(?:sk|rk)_live_[0-9A-Za-z]{16,}\b",
        },
        SecretPattern {
            rule_id: "secret/private-key",
            severity: Severity::Critical,
            cwe: "CWE-798",
            description: "Private key material detected",
            regex: r"-----BEGIN (?:RSA |DSA |EC |OPENSSH )?PRIVATE KEY-----",
        },
    ];
    assert(pattern_views(r@) =~= secret_patterns());
    r
}

// ---------------------------------------------------------------------------
// Matching
// ---------------------------------------------------------------------------

/// A compiled expression of `regex`, which nothing here looks into.
#[verifier::external_type_specification]
#[verifier::external_body]
pub struct ExRegex(regex::Regex);

/// The expression that a compiled one stands for, all options written out.
pub uninterp spec fn regex_meaning(regex: regex::Regex) -> Seq<char>;

/// `regex::Regex::new` accepts the expression.
pub uninterp spec fn regex_accepts(expression: Seq<char>) -> bool;

/// The byte ranges that `regex::Regex::find_iter` yields for an expression in a text, in order.
pub uninterp spec fn regex_ranges(expression: Seq<char>, text: Seq<char>) -> Seq<(usize, usize)>;

/// The ranges lie in the text, begin and end between characters, and do not overlap.
pub open spec fn well_placed(ranges: Seq<(usize, usize)>, text: Seq<char>) -> bool {
    &&& forall|i: int|
        0 <= i < ranges.len() ==> (#[trigger] ranges[i]).0 <= ranges[i].1 <= encode_utf8(text).len()
            && is_char_boundary(encode_utf8(text), ranges[i].0 as int) && is_char_boundary(
            encode_utf8(text),
            ranges[i].1 as int,
        )
    &&& forall|i: int, j: int|
        0 <= i < j < ranges.len() ==> (#[trigger] ranges[i]).1 <= (#[trigger] ranges[j]).0
}

/// Compiles an expression with `regex::Regex::new`. Claimed are that the expression alone decides
/// whether it is accepted, and that what comes back stands for it.
#[verifier::external_body]
fn compile_regex(expression: &str) -> (r: Option<regex::Regex>)
    ensures
        match r {
            Some(regex) => regex_accepts(expression@) && regex_meaning(regex) == expression@,
            None => !regex_accepts(expression@),
        },
{
    regex::Regex::new(expression).ok()
}

/// Finds the matches of an expression in a text with `regex::Regex::find_iter`. Claimed are that
/// the ranges are a function of the expression and the text, and that they are placed as that
/// library documents: successive, not overlapping, on character boundaries.
#[verifier::external_body]
fn find_matches(regex: &regex::Regex, text: &str) -> (r: Vec<(usize, usize)>)
    ensures
        r@ == regex_ranges(regex_meaning(*regex), text@),
        well_placed(r@, text@),
{
    regex.find_iter(text).map(|m| (m.start(), m.end())).collect()
}

/// One recognised credential in a line: its kind and the bytes it takes.
#[derive(Debug, Clone, Copy, PartialEq, Eq, Structural)]
pub struct SecretMatch {
    pub pattern: usize,
    pub start: usize,
    pub end: usize,
}

/// The matches of one kind in a line.
pub open spec fn kind_matches(regex: Seq<char>, kind: usize, line: Seq<char>) -> Seq<SecretMatch> {
    if regex_accepts(regex) {
        regex_ranges(regex, line).map_values(
            |r: (usize, usize)| SecretMatch { pattern: kind, start: r.0, end: r.1 },
        )
    } else {
        Seq::empty()
    }
}

/// The matches of the first `n` kinds in a line, kind by kind.
pub open spec fn line_matches(kinds: Seq<PatternView>, line: Seq<char>, n: int) -> Seq<SecretMatch>
    decreases n,
{
    if n <= 0 {
        Seq::empty()
    } else {
        line_matches(kinds, line, n - 1) + kind_matches(
            kinds[n - 1].regex,
            (n - 1) as usize,
            line,
        )
    }
}

/// The match lies in the line and begins and ends between characters.
pub open spec fn placed(m: SecretMatch, line: Seq<char>) -> bool {
    &&& m.start <= m.end <= encode_utf8(line).len()
    &&& is_char_boundary(encode_utf8(line), m.start as int)
    &&& is_char_boundary(encode_utf8(line), m.end as int)
}

pub open spec fn all_placed(ms: Seq<SecretMatch>, line: Seq<char>) -> bool {
    forall|i: int| 0 <= i < ms.len() ==> placed(#[trigger] ms[i], line)
}

/// Every match is of one of the first `n` kinds.
pub open spec fn kinds_below(ms: Seq<SecretMatch>, n: int) -> bool {
    forall|i: int| 0 <= i < ms.len() ==> (#[trigger] ms[i]).pattern < n
}

/// The order in which matches begin.
pub open spec fn by_start() -> spec_fn(SecretMatch, SecretMatch) -> bool {
    |a: SecretMatch, b: SecretMatch| a.start <= b.start
}

fn starts_no_later(a: &SecretMatch, b: &SecretMatch) -> (r: bool)
    ensures
        r == by_start()(*a, *b),
{
    a.start <= b.start
}

// ---------------------------------------------------------------------------
// Redaction
// ---------------------------------------------------------------------------

/// What stands in place of credentials.
pub const SECRET_MARK: &'static str = "[REDACTED]";

/// The parts of a line that lie before the mark of each of the first `n` matches, and where the
/// part after them begins. A match that begins inside an earlier one shares its mark.
pub open spec fn shown_parts(ms: Seq<SecretMatch>, n: int) -> (Seq<(int, int)>, int)
    decreases n,
{
    if n <= 0 {
        (Seq::empty(), 0)
    } else {
        let (parts, cursor) = shown_parts(ms, n - 1);
        let m = ms[n - 1];
        if m.end <= cursor {
            (parts, cursor)
        } else if m.start >= cursor {
            (parts.push((cursor, m.start as int)), m.end as int)
        } else {
            (parts, m.end as int)
        }
    }
}

/// The given parts of a line, each with a mark behind it.
pub open spec fn marked_parts(line: Seq<u8>, parts: Seq<(int, int)>) -> Seq<u8>
    decreases parts.len(),
{
    if parts.len() == 0 {
        Seq::empty()
    } else {
        let p = parts.last();
        marked_parts(line, parts.drop_last()) + line.subrange(p.0, p.1) + encode_utf8(SECRET_MARK@)
    }
}

/// The line with a mark in place of the matches.
pub open spec fn redacted_line(line: Seq<u8>, ms: Seq<SecretMatch>) -> Seq<u8> {
    let (parts, cursor) = shown_parts(ms, ms.len() as int);
    marked_parts(line, parts) + line.skip(cursor)
}

/// The line with a mark in place of the matches.
pub fn redact_line(line: &str, ms: &Vec<SecretMatch>) -> (r: String)
    requires
        all_placed(ms@, line@),
    ensures
        encode_utf8(r@) == redacted_line(encode_utf8(line@), ms@),
{
    let ghost bytes = encode_utf8(line@);
    let mut snippet: String = String::new();
    let mut cursor: usize = 0;
    let mut i: usize = 0;
    proof {
        encode_utf8_valid_utf8(line@);
        is_char_boundary_start_end_of_seq(bytes);
    }
    while i < ms.len()
        invariant
            i <= ms@.len(),
            bytes == encode_utf8(line@),
            all_placed(ms@, line@),
            cursor <= bytes.len(),
            is_char_boundary(bytes, cursor as int),
            cursor == shown_parts(ms@, i as int).1,
            encode_utf8(snippet@) == marked_parts(bytes, shown_parts(ms@, i as int).0),
        decreases ms@.len() - i,
    {
        let m = ms[i];
        assert(placed(ms@[i as int], line@));
        if m.end > cursor {
            if m.start >= cursor {
                let part = slice_bytes(line, cursor, m.start);
                let ghost parts = shown_parts(ms@, i as int).0;
                let ghost before = snippet@;
                proof {
                    lemma_encode_concat(before, part@);
                    lemma_encode_concat(before + part@, SECRET_MARK@);
                    let next = parts.push((cursor as int, m.start as int));
                    assert(next.drop_last() =~= parts);
                    assert(marked_parts(bytes, next) =~= encode_utf8(before) + encode_utf8(part@)
                        + encode_utf8(SECRET_MARK@));
                }
                snippet.append(part.as_str());
                snippet.append(SECRET_MARK);
            }
            cursor = m.end;
        }
        i = i + 1;
    }
    let n: usize = line.as_bytes().len();
    let rest = slice_bytes(line, cursor, n);
    proof {
        lemma_encode_concat(snippet@, rest@);
        assert(bytes.subrange(cursor as int, n as int) =~= bytes.skip(cursor as int));
    }
    snippet.append(rest.as_str());
    snippet
}

proof fn lemma_parts_avoid_matches(ms: Seq<SecretMatch>, n: int)
    requires
        0 <= n <= ms.len(),
        forall|i: int| 0 <= i < ms.len() ==> (#[trigger] ms[i]).start <= ms[i].end,
        forall|i: int, j: int|
            0 <= i <= j < ms.len() ==> (#[trigger] ms[i]).start <= (#[trigger] ms[j]).start,
    ensures
        ({
            let (parts, cursor) = shown_parts(ms, n);
            &&& forall|i: int| 0 <= i < n ==> (#[trigger] ms[i]).end <= cursor
            &&& forall|k: int, i: int|
                #![trigger parts[k], ms[i]]
                0 <= k < parts.len() && 0 <= i < ms.len() ==> ms[i].end <= parts[k].0
                    || parts[k].1 <= ms[i].start
        }),
    decreases n,
{
    if n > 0 {
        lemma_parts_avoid_matches(ms, n - 1);
        let (before, at) = shown_parts(ms, n - 1);
        let (parts, cursor) = shown_parts(ms, n);
        assert forall|k: int, i: int|
            #![trigger parts[k], ms[i]]
            0 <= k < parts.len() && 0 <= i < ms.len() implies ms[i].end <= parts[k].0
            || parts[k].1 <= ms[i].start by {
            if k < before.len() {
                assert(parts[k] == before[k]);
            } else {
                assert(parts[k] == (at, ms[n - 1].start as int));
                if i < n - 1 {
                    assert(ms[i].end <= at);
                } else {
                    assert(ms[n - 1].start <= ms[i].start);
                }
            }
        }
    }
}

/// Of matches in the order in which they begin, no byte is shown: every part of the line that is
/// kept ends before, or begins after, each of them.
pub proof fn redaction_shows_no_secret(ms: Seq<SecretMatch>, i: int)
    requires
        forall|k: int| 0 <= k < ms.len() ==> (#[trigger] ms[k]).start <= ms[k].end,
        forall|j: int, k: int|
            0 <= j <= k < ms.len() ==> (#[trigger] ms[j]).start <= (#[trigger] ms[k]).start,
        0 <= i < ms.len(),
    ensures
        ms[i].end <= shown_parts(ms, ms.len() as int).1,
        forall|k: int|
            0 <= k < shown_parts(ms, ms.len() as int).0.len() ==> ms[i].end <= (
            #[trigger] shown_parts(ms, ms.len() as int).0[k]).0 || shown_parts(
                ms,
                ms.len() as int,
            ).0[k].1 <= ms[i].start,
{
    lemma_parts_avoid_matches(ms, ms.len() as int);
    let parts = shown_parts(ms, ms.len() as int).0;
    assert forall|k: int| 0 <= k < parts.len() implies ms[i].end <= (#[trigger] parts[k]).0
        || parts[k].1 <= ms[i].start by {
        assert(ms[i] == ms[i]);
    }
}

// ---------------------------------------------------------------------------
// Settings
// ---------------------------------------------------------------------------

/// What a scan leaves out.
#[derive(Debug)]
pub struct SecretScanConfig {
    pub excluded_paths: Vec<String>,
    pub ignored_rules: Vec<String>,
}

impl Default for SecretScanConfig {
    fn default() -> (r: Self)
        ensures
            r.excluded_paths@.len() == 0,
            r.ignored_rules@.len() == 0,
    {
        SecretScanConfig { excluded_paths: Vec::new(), ignored_rules: Vec::new() }
    }
}

/// A file that lists paths to leave out, as far as it could be read.
#[derive(Debug)]
pub struct ExcludeFile {
    pub path: String,
    pub content: Result<String, String>,
}

/// The line of such a file names a path: it is neither blank nor a comment.
pub open spec fn names_path(line: Seq<char>) -> bool {
    trim_text(line).len() > 0 && trim_text(line)[0] != '#'
}

/// The paths that such a file names.
pub open spec fn listed_paths(content: Seq<char>) -> Seq<Seq<char>> {
    lines_of(content).filter(|l: Seq<char>| names_path(l)).map_values(|l: Seq<char>| trim_text(l))
}

fn append_listed_paths(paths: &mut Vec<String>, content: &str)
    ensures
        texts(final(paths)@) == texts(old(paths)@) + listed_paths(content@),
{
    let all = lines(content);
    let ghost views = lines_of(content@);
    let ghost start = texts(paths@);
    let ghost p = |l: Seq<char>| names_path(l);
    let ghost f = |l: Seq<char>| trim_text(l);
    let mut i: usize = 0;
    proof {
        assert(views.take(0) =~= Seq::<Seq<char>>::empty());
        reveal(Seq::filter);
        assert(texts(paths@) =~= start + views.take(0).filter(p).map_values(f));
    }
    while i < all.len()
        invariant
            i <= all@.len(),
            views == texts(all@),
            p == (|l: Seq<char>| names_path(l)),
            f == (|l: Seq<char>| trim_text(l)),
            texts(paths@) == start + views.take(i as int).filter(p).map_values(f),
        decreases all@.len() - i,
    {
        let trimmed = trim(all[i].as_str());
        let c = crate::text::chars_of(trimmed.as_str());
        proof {
            assert(views[i as int] == all@[i as int]@);
            assert(views.take(i + 1) =~= views.take(i as int).push(views[i as int]));
            views.take(i as int).lemma_filter_push(views[i as int], p);
            let kept = views.take(i as int).filter(p);
            assert(kept.push(views[i as int]).map_values(f) =~= kept.map_values(f).push(
                f(views[i as int]),
            ));
        }
        if c.len() > 0 && c[0] != '#' {
            let ghost before = texts(paths@);
            proof {
                lemma_texts_push(paths@, trimmed);
            }
            paths.push(trimmed);
            proof {
                assert(texts(paths@) =~= start + views.take(i + 1).filter(p).map_values(f));
            }
        }
        i = i + 1;
    }
    assert(views.take(i as int) =~= views);
}

/// Where a search begins.
#[derive(Debug, PartialEq, Eq)]
pub struct ScanRoot {
    pub path: String,
    pub is_file: bool,
}

impl ScanRoot {
    /// The components of the directory that paths are seen from: the root itself, or the one that
    /// holds it where it is a file.
    pub open spec fn base(&self) -> Seq<PartView> {
        let parts = path_parts(self.path@);
        if !self.is_file {
            parts
        } else if parts.len() > 0 && !(parts.last() is Root) {
            parts.drop_last()
        } else {
            seq![PartView::Current]
        }
    }

    fn base_components(&self) -> (r: Vec<PathPart>)
        ensures
            part_views(r@) == self.base(),
    {
        let mut parts = components(self.path.as_str());
        let ghost all = path_parts(self.path@);
        if self.is_file {
            assert(part_views(parts@).len() == parts@.len());
            match parts.pop() {
                Some(PathPart::Root) | None => {
                    let mut here: Vec<PathPart> = Vec::new();
                    here.push(PathPart::Current);
                    assert(part_views(here@) =~= seq![PartView::Current]);
                    return here;
                },
                Some(_) => {
                    assert(part_views(parts@) =~= all.drop_last());
                },
            }
        }
        parts
    }
}

/// The components of a path as seen from a base, where it lies below it.
pub open spec fn seen_from(base: Seq<PartView>, path: Seq<char>) -> Seq<PartView> {
    if base.is_prefix_of(path_parts(path)) {
        path_parts(path).skip(base.len() as int)
    } else {
        path_parts(path)
    }
}

/// The path lies at or below the excluded one: an absolute one is held against the canonical form,
/// any other against the path as seen from the base.
pub open spec fn excluded_by(
    excluded: Seq<char>,
    base: Seq<PartView>,
    path: Seq<char>,
    canonical: Option<Seq<char>>,
) -> bool {
    if excluded.len() == 0 {
        false
    } else if crate::paths::absolute(excluded) {
        canonical matches Some(c) && path_parts(excluded).is_prefix_of(path_parts(c))
    } else {
        path_parts(excluded).is_prefix_of(seen_from(base, path))
    }
}

impl SecretScanConfig {
    /// The path is left out.
    pub open spec fn skips(
        &self,
        base: Seq<PartView>,
        path: Seq<char>,
        canonical: Option<Seq<char>>,
    ) -> bool {
        exists|i: int|
            0 <= i < self.excluded_paths@.len() && excluded_by(
                #[trigger] self.excluded_paths@[i]@,
                base,
                path,
                canonical,
            )
    }

    /// Findings of the rule are left out.
    pub open spec fn ignores(&self, rule_id: Seq<char>) -> bool {
        texts(self.ignored_rules@).contains(rule_id)
    }

    /// Puts the settings together. Lines of the listing file that are blank or begin with `#` name
    /// nothing.
    pub fn from_inputs(
        excluded_paths: &Vec<String>,
        exclude_path_file: Option<ExcludeFile>,
        ignored_rules: &Vec<String>,
    ) -> (r: Result<Self, String>)
        ensures
            match exclude_path_file {
                None => r matches Ok(c) && texts(c.excluded_paths@) == texts(excluded_paths@)
                    && texts(c.ignored_rules@) == texts(ignored_rules@),
                Some(file) => match file.content {
                    Ok(content) => r matches Ok(c) && texts(c.excluded_paths@) == texts(
                        excluded_paths@,
                    ) + listed_paths(content@) && texts(c.ignored_rules@) == texts(
                        ignored_rules@,
                    ),
                    Err(error) => r matches Err(e) && e@ == "Failed to read exclude path file "@
                        + file.path@ + ": "@ + error@,
                },
            },
    {
        let mut paths = copy_strings(excluded_paths);
        if let Some(file) = exclude_path_file {
            match file.content {
                Ok(content) => {
                    append_listed_paths(&mut paths, content.as_str());
                },
                Err(error) => {
                    let mut e: String = owned("Failed to read exclude path file ");
                    e.append(file.path.as_str());
                    e.append(": ");
                    e.append(error.as_str());
                    return Err(e);
                },
            }
        }
        Ok(SecretScanConfig { excluded_paths: paths, ignored_rules: copy_strings(ignored_rules) })
    }

    /// Whether the path is left out.
    pub fn should_skip_path(&self, root: &ScanRoot, path: &str, canonical: &Option<String>) -> (r: bool)
        ensures
            r == self.skips(root.base(), path@, opt_text(*canonical)),
    {
        let base_parts = root.base_components();
        let path_parts_of = components(path);
        let ghost whole = part_views(path_parts_of@);
        let from: usize = if parts_under(&path_parts_of, 0, &base_parts) {
            base_parts.len()
        } else {
            0
        };
        proof {
            assert(whole.skip(0) =~= whole);
            assert(seen_from(root.base(), path@) == whole.skip(from as int));
            assert(part_views(base_parts@).len() == base_parts@.len());
        }
        let mut i: usize = 0;
        while i < self.excluded_paths.len()
            invariant
                i <= self.excluded_paths@.len(),
                whole == part_views(path_parts_of@),
                from <= path_parts_of@.len(),
                seen_from(root.base(), path@) == whole.skip(from as int),
                forall|k: int|
                    0 <= k < i ==> !excluded_by(
                        #[trigger] self.excluded_paths@[k]@,
                        root.base(),
                        path@,
                        opt_text(*canonical),
                    ),
            decreases self.excluded_paths@.len() - i,
        {
            let excluded = self.excluded_paths[i].as_str();
            if !excluded.is_empty() {
                let prefix = components(excluded);
                let hit = if crate::paths::is_absolute(excluded) {
                    match canonical {
                        Some(c) => {
                            let parts = components(c.as_str());
                            assert(part_views(parts@).skip(0) =~= part_views(parts@));
                            parts_under(&parts, 0, &prefix)
                        },
                        None => false,
                    }
                } else {
                    parts_under(&path_parts_of, from, &prefix)
                };
                if hit {
                    assert(excluded_by(
                        self.excluded_paths@[i as int]@,
                        root.base(),
                        path@,
                        opt_text(*canonical),
                    ));
                    return true;
                }
            }
            i = i + 1;
        }
        false
    }

    /// Whether findings of the rule are left out.
    pub fn should_skip_rule(&self, rule_id: &str) -> (r: bool)
        ensures
            r == self.ignores(rule_id@),
    {
        contains_string(&self.ignored_rules, rule_id)
    }
}

// ---------------------------------------------------------------------------
// Findings
// ---------------------------------------------------------------------------

/// The number after `n`; the largest stays.
pub open spec fn after(n: int) -> usize {
    if n >= usize::MAX {
        usize::MAX
    } else {
        (n + 1) as usize
    }
}

fn count_from_one(n: usize) -> (r: usize)
    ensures
        r == after(n as int),
{
    if n == usize::MAX {
        n
    } else {
        n + 1
    }
}

/// The finding for a match in the line at position `line` of a file.
pub open spec fn match_finding(
    kinds: Seq<PatternView>,
    m: SecretMatch,
    file: Seq<char>,
    line: int,
    snippet: Seq<char>,
) -> FindingView {
    let kind = kinds[m.pattern as int];
    FindingView::plain(
        kind.rule_id,
        kind.severity,
        Some(kind.cwe),
        kind.description,
        file,
        Place {
            line: after(line),
            column: after(m.start as int),
            end_line: after(line),
            end_column: after(m.end as int),
        },
        snippet,
    )
}

/// The findings for the first `n` matches of a line, but for those of ignored rules.
pub open spec fn matches_findings(
    kinds: Seq<PatternView>,
    ms: Seq<SecretMatch>,
    n: int,
    config: SecretScanConfig,
    file: Seq<char>,
    line: int,
    snippet: Seq<char>,
) -> Seq<FindingView>
    decreases n,
{
    if n <= 0 {
        Seq::empty()
    } else {
        let before = matches_findings(kinds, ms, n - 1, config, file, line, snippet);
        let m = ms[n - 1];
        if config.ignores(kinds[m.pattern as int].rule_id) {
            before
        } else {
            before.push(match_finding(kinds, m, file, line, snippet))
        }
    }
}

/// The findings for a line with the given matches. All of its matches are kept out of the snippet,
/// those of ignored rules too.
pub open spec fn line_findings(
    kinds: Seq<PatternView>,
    ms: Seq<SecretMatch>,
    config: SecretScanConfig,
    file: Seq<char>,
    line: int,
    text: Seq<char>,
) -> Seq<FindingView> {
    let sorted = stable_sort(ms, by_start());
    let snippet = vstd::utf8::decode_utf8(redacted_line(encode_utf8(text), sorted));
    matches_findings(kinds, sorted, sorted.len() as int, config, file, line, snippet)
}

/// However the matches of a line were found, no byte of any of them is shown: every part of the line
/// that is kept ends before, or begins after, each of them.
pub proof fn no_match_of_a_line_is_shown(ms: Seq<SecretMatch>, i: int)
    requires
        forall|k: int| 0 <= k < ms.len() ==> (#[trigger] ms[k]).start <= ms[k].end,
        0 <= i < ms.len(),
    ensures
        ({
            let sorted = stable_sort(ms, by_start());
            let shown = shown_parts(sorted, sorted.len() as int);
            &&& ms[i].end <= shown.1
            &&& forall|k: int|
                0 <= k < shown.0.len() ==> ms[i].end <= (#[trigger] shown.0[k]).0 || shown.0[k].1
                    <= ms[i].start
        }),
{
    broadcast use vstd::seq_lib::group_to_multiset_ensures;

    let sorted = stable_sort(ms, by_start());
    crate::sort::sorting_orders_and_permutes(ms, by_start());
    assert forall|k: int| 0 <= k < sorted.len() implies (#[trigger] sorted[k]).start
        <= sorted[k].end by {
        assert(sorted.contains(sorted[k]));
        assert(ms.to_multiset().count(sorted[k]) > 0);
        assert(ms.contains(sorted[k]));
        let m = choose|m: int| 0 <= m < ms.len() && #[trigger] ms[m] == sorted[k];
        assert(ms[m].start <= ms[m].end);
    }
    assert(ms.contains(ms[i]));
    assert(sorted.to_multiset().count(ms[i]) > 0);
    assert(sorted.contains(ms[i]));
    let at = choose|at: int| 0 <= at < sorted.len() && #[trigger] sorted[at] == ms[i];
    assert forall|j: int, k: int| 0 <= j <= k < sorted.len() implies (#[trigger] sorted[j]).start
        <= (#[trigger] sorted[k]).start by {
        assert(by_start()(sorted[j], sorted[k]));
    }
    redaction_shows_no_secret(sorted, at);
}

proof fn lemma_sorted_matches(ms: Seq<SecretMatch>, text: Seq<char>, kinds: int)
    requires
        all_placed(ms, text),
        kinds_below(ms, kinds),
    ensures
        all_placed(stable_sort(ms, by_start()), text),
        kinds_below(stable_sort(ms, by_start()), kinds),
{
    broadcast use vstd::seq_lib::group_to_multiset_ensures;

    let sorted = stable_sort(ms, by_start());
    crate::sort::sorting_orders_and_permutes(ms, by_start());
    assert forall|i: int| 0 <= i < sorted.len() implies placed(#[trigger] sorted[i], text)
        && sorted[i].pattern < kinds by {
        assert(sorted.to_multiset().count(sorted[i]) > 0) by {
            assert(sorted.contains(sorted[i]));
        }
        assert(ms.to_multiset().count(sorted[i]) > 0);
        assert(ms.contains(sorted[i]));
        let k = choose|k: int| 0 <= k < ms.len() && ms[k] == sorted[i];
        assert(placed(ms[k], text) && ms[k].pattern < kinds);
    }
}

/// The findings for a line with the given matches.
pub fn findings_in_line(
    kinds: &Vec<SecretPattern>,
    ms: Vec<SecretMatch>,
    config: &SecretScanConfig,
    file: &str,
    line: usize,
    text: &str,
) -> (r: Vec<Finding>)
    requires
        all_placed(ms@, text@),
        kinds_below(ms@, kinds@.len() as int),
    ensures
        finding_views(r@) == line_findings(
            pattern_views(kinds@),
            ms@,
            *config,
            file@,
            line as int,
            text@,
        ),
{
    let ghost given = ms@;
    let ghost views = pattern_views(kinds@);
    let mut sorted = ms;
    proof {
        lemma_sorted_matches(given, text@, kinds@.len() as int);
    }
    sort_stable(&mut sorted, starts_no_later, Ghost(by_start()));
    let snippet = redact_line(text, &sorted);
    proof {
        vstd::utf8::encode_utf8_decode_utf8(snippet@);
    }
    let mut r: Vec<Finding> = Vec::new();
    let mut i: usize = 0;
    assert(finding_views(r@) =~= Seq::<FindingView>::empty());
    while i < sorted.len()
        invariant
            i <= sorted@.len(),
            views == pattern_views(kinds@),
            kinds_below(sorted@, kinds@.len() as int),
            finding_views(r@) == matches_findings(
                views,
                sorted@,
                i as int,
                *config,
                file@,
                line as int,
                snippet@,
            ),
        decreases sorted@.len() - i,
    {
        let m = sorted[i];
        assert(sorted@[i as int].pattern < kinds@.len());
        let kind = kinds[m.pattern];
        assert(views[m.pattern as int] == kind@);
        if !config.should_skip_rule(kind.rule_id) {
            let f = Finding::plain(
                owned(kind.rule_id),
                kind.severity,
                Some(owned(kind.cwe)),
                owned(kind.description),
                owned(file),
                Place {
                    line: count_from_one(line),
                    column: count_from_one(m.start),
                    end_line: count_from_one(line),
                    end_column: count_from_one(m.end),
                },
                snippet.clone(),
            );
            proof {
                lemma_finding_views_push(r@, f);
            }
            r.push(f);
        }
        i = i + 1;
    }
    r
}

/// The findings in the first `n` lines of a file.
pub open spec fn lines_findings(
    kinds: Seq<PatternView>,
    all: Seq<Seq<char>>,
    n: int,
    config: SecretScanConfig,
    file: Seq<char>,
) -> Seq<FindingView>
    decreases n,
{
    if n <= 0 {
        Seq::empty()
    } else {
        lines_findings(kinds, all, n - 1, config, file) + line_findings(
            kinds,
            line_matches(kinds, all[n - 1], kinds.len() as int),
            config,
            file,
            n - 1,
            all[n - 1],
        )
    }
}

/// The findings in a text.
pub open spec fn text_findings(
    text: Seq<char>,
    config: SecretScanConfig,
    file: Seq<char>,
) -> Seq<FindingView> {
    let all = lines_of(text);
    lines_findings(secret_patterns(), all, all.len() as int, config, file)
}

/// The compiled expression is that of the kind; there is none where it is not accepted.
pub open spec fn compiled_as(regex: Option<regex::Regex>, kind: SecretPattern) -> bool {
    match regex {
        Some(x) => regex_accepts(kind.regex@) && regex_meaning(x) == kind.regex@,
        None => !regex_accepts(kind.regex@),
    }
}

/// Compiles the expression of each kind.
fn compile_all(kinds: &Vec<SecretPattern>) -> (r: Vec<Option<regex::Regex>>)
    ensures
        r@.len() == kinds@.len(),
        forall|k: int| 0 <= k < r@.len() ==> compiled_as(#[trigger] r@[k], kinds@[k]),
{
    let mut r: Vec<Option<regex::Regex>> = Vec::new();
    let mut k: usize = 0;
    while k < kinds.len()
        invariant
            k <= kinds@.len(),
            r@.len() == k,
            forall|m: int| 0 <= m < k ==> compiled_as(#[trigger] r@[m], kinds@[m]),
        decreases kinds@.len() - k,
    {
        r.push(compile_regex(kinds[k].regex));
        k = k + 1;
    }
    r
}

/// Gathers the matches of one line, kind by kind.
fn gather(
    kinds: &Vec<SecretPattern>,
    compiled: &Vec<Option<regex::Regex>>,
    line: &str,
) -> (r: Vec<SecretMatch>)
    requires
        compiled@.len() == kinds@.len(),
        forall|k: int| 0 <= k < compiled@.len() ==> compiled_as(#[trigger] compiled@[k], kinds@[k]),
    ensures
        r@ == line_matches(pattern_views(kinds@), line@, kinds@.len() as int),
        all_placed(r@, line@),
        kinds_below(r@, kinds@.len() as int),
{
    let ghost views = pattern_views(kinds@);
    let mut r: Vec<SecretMatch> = Vec::new();
    let mut k: usize = 0;
    while k < kinds.len()
        invariant
            k <= kinds@.len(),
            compiled@.len() == kinds@.len(),
            views == pattern_views(kinds@),
            forall|m: int|
                0 <= m < compiled@.len() ==> compiled_as(#[trigger] compiled@[m], kinds@[m]),
            r@ == line_matches(views, line@, k as int),
            all_placed(r@, line@),
            kinds_below(r@, k as int),
        decreases kinds@.len() - k,
    {
        let ghost before = r@;
        assert(views[k as int].regex == kinds@[k as int].regex@);
        assert(kinds_below(r@, k + 1));
        assert(compiled_as(compiled@[k as int], kinds@[k as int]));
        match &compiled[k] {
            Some(regex) => {
                let ranges = find_matches(regex, line);
                let ghost target = kind_matches(kinds@[k as int].regex@, k, line@);
                let mut i: usize = 0;
                assert(r@ =~= before + target.take(0));
                while i < ranges.len()
                    invariant
                        i <= ranges@.len(),
                        k < kinds@.len(),
                        well_placed(ranges@, line@),
                        regex_accepts(kinds@[k as int].regex@),
                        regex_ranges(kinds@[k as int].regex@, line@) == ranges@,
                        target == kind_matches(kinds@[k as int].regex@, k, line@),
                        r@ == before + target.take(i as int),
                        all_placed(r@, line@),
                        kinds_below(r@, k + 1),
                    decreases ranges@.len() - i,
                {
                    let range = ranges[i];
                    let m = SecretMatch { pattern: k, start: range.0, end: range.1 };
                    assert(ranges@[i as int] == range);
                    assert(target[i as int] == m);
                    assert(target.take(i + 1) =~= target.take(i as int).push(m));
                    assert(placed(m, line@));
                    r.push(m);
                    assert(r@ =~= before + target.take(i + 1));
                    i = i + 1;
                }
                assert(target.take(i as int) =~= target);
            },
            None => {
                assert(r@ =~= before + Seq::<SecretMatch>::empty());
            },
        }
        k = k + 1;
    }
    r
}

/// The findings in a text.
pub fn scan_text(text: &str, config: &SecretScanConfig, file: &str) -> (r: Vec<Finding>)
    ensures
        finding_views(r@) == text_findings(text@, *config, file@),
{
    let kinds = patterns();
    let all = lines(text);
    let ghost views = lines_of(text@);
    let ghost kind_views = secret_patterns();
    let compiled = compile_all(&kinds);
    let mut r: Vec<Finding> = Vec::new();
    let mut i: usize = 0;
    assert(finding_views(r@) =~= Seq::<FindingView>::empty());
    while i < all.len()
        invariant
            i <= all@.len(),
            views == texts(all@),
            kind_views == pattern_views(kinds@),
            compiled@.len() == kinds@.len(),
            forall|k: int|
                0 <= k < compiled@.len() ==> compiled_as(#[trigger] compiled@[k], kinds@[k]),
            finding_views(r@) == lines_findings(kind_views, views, i as int, *config, file@),
        decreases all@.len() - i,
    {
        assert(views[i as int] == all@[i as int]@);
        let ms = gather(&kinds, &compiled, all[i].as_str());
        let mut here = findings_in_line(&kinds, ms, config, file, i, all[i].as_str());
        let ghost before = r@;
        let ghost added = here@;
        r.append(&mut here);
        proof {
            assert(finding_views(before + added) =~= finding_views(before) + finding_views(added));
            assert(pattern_views(kinds@).len() == kinds@.len());
        }
        i = i + 1;
    }
    r
}

// ---------------------------------------------------------------------------
// Files
// ---------------------------------------------------------------------------

/// What is known of a file.
#[derive(Debug)]
pub struct SecretFile {
    pub path: String,
    /// Its path without links and detours, where that could be had.
    pub canonical: Option<String>,
    /// How many bytes it holds, where that could be had.
    pub size: Option<u64>,
    /// What it holds, where it was read.
    pub bytes: Option<Vec<u8>>,
}

/// Why a file is not looked at, where that is worth a notice.
pub open spec fn file_notice(file: SecretFile, max_file_size: u64) -> Option<Seq<char>> {
    match file.size {
        Some(n) => if n > max_file_size {
            Some(
                "warning: skipping "@ + file.path@ + " ("@ + decimal(n as nat)
                    + " bytes exceeds --max-file-size)"@,
            )
        } else {
            None
        },
        None => Some("warning: skipping "@ + file.path@ + " (cannot read metadata)"@),
    }
}

/// The text of a file that is no binary one.
pub open spec fn scannable_text(file: SecretFile) -> Option<Seq<char>> {
    match file.bytes {
        Some(bytes) => if bytes@.contains(0u8) {
            None
        } else {
            Some(utf8_lossy(bytes@))
        },
        None => None,
    }
}

/// The findings in a file.
pub open spec fn file_findings(
    file: SecretFile,
    base: Seq<PartView>,
    config: SecretScanConfig,
    max_file_size: u64,
) -> Seq<FindingView> {
    if config.skips(base, file.path@, opt_text(file.canonical)) || file_notice(
        file,
        max_file_size,
    ) is Some {
        Seq::empty()
    } else {
        match scannable_text(file) {
            Some(text) => text_findings(text, config, file.path@),
            None => Seq::empty(),
        }
    }
}

/// The findings in the first `n` files.
pub open spec fn files_findings(
    files: Seq<SecretFile>,
    n: int,
    base: Seq<PartView>,
    config: SecretScanConfig,
    max_file_size: u64,
) -> Seq<FindingView>
    decreases n,
{
    if n <= 0 {
        Seq::empty()
    } else {
        files_findings(files, n - 1, base, config, max_file_size) + file_findings(
            files[n - 1],
            base,
            config,
            max_file_size,
        )
    }
}

/// The notices on the first `n` files.
pub open spec fn files_notices(
    files: Seq<SecretFile>,
    n: int,
    base: Seq<PartView>,
    config: SecretScanConfig,
    max_file_size: u64,
) -> Seq<Seq<char>>
    decreases n,
{
    if n <= 0 {
        Seq::empty()
    } else {
        let before = files_notices(files, n - 1, base, config, max_file_size);
        let f = files[n - 1];
        match file_notice(f, max_file_size) {
            Some(text) => if config.skips(base, f.path@, opt_text(f.canonical)) {
                before
            } else {
                before.push(text)
            },
            None => before,
        }
    }
}

/// The order of findings: by file, line and column.
pub open spec fn by_place() -> spec_fn(FindingView, FindingView) -> bool {
    |a: FindingView, b: FindingView|
        if a.file != b.file {
            text_le(a.file, b.file)
        } else if a.line != b.line {
            a.line < b.line
        } else {
            a.column <= b.column
        }
}

fn placed_no_later(a: &Finding, b: &Finding) -> (r: bool)
    ensures
        r == by_place()(a@, b@),
{
    if !same(a.file.as_str(), b.file.as_str()) {
        at_most(a.file.as_str(), b.file.as_str())
    } else if a.line != b.line {
        a.line < b.line
    } else {
        a.column <= b.column
    }
}

/// Whether a file's size lets it be read.
pub fn size_notice(path: &str, size: Option<u64>, max_file_size: u64) -> (r: Option<String>)
    ensures
        match size {
            Some(n) => if n > max_file_size {
                r matches Some(t) && t@ == "warning: skipping "@ + path@ + " ("@ + decimal(
                    n as nat,
                ) + " bytes exceeds --max-file-size)"@
            } else {
                r is None
            },
            None => r matches Some(t) && t@ == "warning: skipping "@ + path@
                + " (cannot read metadata)"@,
        },
{
    match size {
        Some(n) => {
            if n > max_file_size {
                let mut s: String = owned("warning: skipping ");
                s.append(path);
                s.append(" (");
                let d = decimal_string(n);
                s.append(d.as_str());
                s.append(" bytes exceeds --max-file-size)");
                Some(s)
            } else {
                None
            }
        },
        None => {
            let mut s: String = owned("warning: skipping ");
            s.append(path);
            s.append(" (cannot read metadata)");
            Some(s)
        },
    }
}

fn has_zero(bytes: &Vec<u8>) -> (r: bool)
    ensures
        r == bytes@.contains(0u8),
{
    let mut i: usize = 0;
    while i < bytes.len()
        invariant
            i <= bytes@.len(),
            forall|k: int| 0 <= k < i ==> bytes@[k] != 0u8,
        decreases bytes@.len() - i,
    {
        if bytes[i] == 0 {
            return true;
        }
        i = i + 1;
    }
    false
}

/// The text of a file that is no binary one.
pub fn read_scannable_text(file: &SecretFile) -> (r: Option<String>)
    ensures
        opt_text(r) == scannable_text(*file),
{
    match &file.bytes {
        Some(bytes) => {
            if has_zero(bytes) {
                None
            } else {
                Some(text_from_bytes(bytes))
            }
        },
        None => None,
    }
}

/// The findings in the files, in the order of their places, and notices on files that were not
/// looked at.
pub fn scan_paths_with_config_and_notices(
    root: &ScanRoot,
    files: &Vec<SecretFile>,
    config: &SecretScanConfig,
    max_file_size: u64,
) -> (r: (Vec<Finding>, Vec<String>))
    ensures
        finding_views(r.0@) == stable_sort(
            files_findings(files@, files@.len() as int, root.base(), *config, max_file_size),
            by_place(),
        ),
        texts(r.1@) == files_notices(
            files@,
            files@.len() as int,
            root.base(),
            *config,
            max_file_size,
        ),
{
    let mut findings: Vec<Finding> = Vec::new();
    let mut notices: Vec<String> = Vec::new();
    let mut i: usize = 0;
    assert(finding_views(findings@) =~= Seq::<FindingView>::empty());
    assert(texts(notices@) =~= Seq::<Seq<char>>::empty());
    while i < files.len()
        invariant
            i <= files@.len(),
            finding_views(findings@) == files_findings(
                files@,
                i as int,
                root.base(),
                *config,
                max_file_size,
            ),
            texts(notices@) == files_notices(files@, i as int, root.base(), *config, max_file_size),
        decreases files@.len() - i,
    {
        let file = &files[i];
        let ghost before = findings@;
        let ghost mut added: Seq<Finding> = Seq::empty();
        if !config.should_skip_path(root, file.path.as_str(), &file.canonical) {
            match size_notice(file.path.as_str(), file.size, max_file_size) {
                Some(text) => {
                    proof {
                        lemma_texts_push(notices@, text);
                    }
                    notices.push(text);
                },
                None => {
                    if let Some(text) = read_scannable_text(file) {
                        let mut here = scan_text(text.as_str(), config, file.path.as_str());
                        proof {
                            added = here@;
                        }
                        findings.append(&mut here);
                    }
                },
            }
        }
        proof {
            assert(findings@ =~= before + added);
            assert(finding_views(before + added) =~= finding_views(before) + finding_views(added));
            assert(finding_views(Seq::<Finding>::empty()) =~= Seq::<FindingView>::empty());
        }
        i = i + 1;
    }
    proof {
        crate::sort::lemma_sort_map(
            findings@,
            |a: Finding, b: Finding| by_place()(a@, b@),
            |f: Finding| f@,
            by_place(),
        );
    }
    sort_stable(
        &mut findings,
        placed_no_later,
        Ghost(|a: Finding, b: Finding| by_place()(a@, b@)),
    );
    (findings, notices)
}

/// The findings in the files, in the order of their places.
pub fn scan_paths_with_config(
    root: &ScanRoot,
    files: &Vec<SecretFile>,
    config: &SecretScanConfig,
    max_file_size: u64,
) -> (r: Vec<Finding>)
    ensures
        finding_views(r@) == stable_sort(
            files_findings(files@, files@.len() as int, root.base(), *config, max_file_size),
            by_place(),
        ),
{
    scan_paths_with_config_and_notices(root, files, config, max_file_size).0
}

/// The findings in the files, with nothing left out.
pub fn scan_paths(files: &Vec<SecretFile>, max_file_size: u64) -> (r: Vec<Finding>)
    ensures
        exists|config: SecretScanConfig|
            {
                &&& config.excluded_paths@.len() == 0
                &&& config.ignored_rules@.len() == 0
                &&& finding_views(r@) == stable_sort(
                    #[trigger] files_findings(
                        files@,
                        files@.len() as int,
                        path_parts("."@),
                        config,
                        max_file_size,
                    ),
                    by_place(),
                )
            },
{
    let config = SecretScanConfig::default();
    let root = ScanRoot { path: owned("."), is_file: false };
    scan_paths_with_config(&root, files, &config, max_file_size)
}

/// The findings in the files of a directory, in the order of their places, and notices on files that
/// were not looked at.
pub fn scan_directory_with_config_and_notices(
    root: &ScanRoot,
    files: &Vec<SecretFile>,
    config: &SecretScanConfig,
    max_file_size: u64,
) -> (r: (Vec<Finding>, Vec<String>))
    ensures
        finding_views(r.0@) == stable_sort(
            files_findings(files@, files@.len() as int, root.base(), *config, max_file_size),
            by_place(),
        ),
        texts(r.1@) == files_notices(
            files@,
            files@.len() as int,
            root.base(),
            *config,
            max_file_size,
        ),
{
    scan_paths_with_config_and_notices(root, files, config, max_file_size)
}

/// The findings in the files of a directory, in the order of their places.
pub fn scan_directory_with_config(
    root: &ScanRoot,
    files: &Vec<SecretFile>,
    config: &SecretScanConfig,
    max_file_size: u64,
) -> (r: Vec<Finding>)
    ensures
        finding_views(r@) == stable_sort(
            files_findings(files@, files@.len() as int, root.base(), *config, max_file_size),
            by_place(),
        ),
{
    scan_directory_with_config_and_notices(root, files, config, max_file_size).0
}

/// The findings in the files of a directory, with nothing left out.
pub fn scan_directory(root: &ScanRoot, files: &Vec<SecretFile>, max_file_size: u64) -> (r: Vec<Finding>)
    ensures
        exists|config: SecretScanConfig|
            {
                &&& config.excluded_paths@.len() == 0
                &&& config.ignored_rules@.len() == 0
                &&& finding_views(r@) == stable_sort(
                    #[trigger] files_findings(
                        files@,
                        files@.len() as int,
                        root.base(),
                        config,
                        max_file_size,
                    ),
                    by_place(),
                )
            },
{
    let config = SecretScanConfig::default();
    scan_directory_with_config(root, files, &config, max_file_size)
}

/// The findings of a scan come in the order of their places, and none is lost or added.
pub proof fn findings_are_in_order(findings: Seq<FindingView>)
    ensures
        ascending(stable_sort(findings, by_place()), by_place()),
        stable_sort(findings, by_place()).to_multiset() == findings.to_multiset(),
{
    let le = by_place();
    assert(total_preorder(le)) by {
        assert forall|a: FindingView| #[trigger] le(a, a) by {}
        assert forall|a: FindingView, b: FindingView| #[trigger] le(a, b) || le(b, a) by {
            lemma_text_le_total(a.file, b.file);
        }
        assert forall|a: FindingView, b: FindingView, c: FindingView| #[trigger]
            le(a, b) && #[trigger] le(b, c) implies le(a, c) by {
            if a.file != b.file || b.file != c.file {
                lemma_text_le_reflexive(a.file);
                lemma_text_le_reflexive(b.file);
                lemma_text_le_transitive(a.file, b.file, c.file);
                if a.file == c.file {
                    lemma_text_le_antisymmetric(a.file, b.file);
                }
            }
        }
    }
    sorting_orders_and_permutes(findings, le);
}

} // verus!
