//! Findings by byte offsets, and the comment markers of languages.

use crate::finding::{Finding, FindingView, Language, Place, Severity};
use crate::text::{lines, lines_of, owned};
use vstd::prelude::*;
use vstd::utf8::encode_utf8;

verus! {

/// How many line feeds stand among the first `n` bytes.
pub open spec fn line_feeds(bytes: Seq<u8>, n: int) -> nat
    decreases n,
{
    if n <= 0 {
        0
    } else {
        line_feeds(bytes, n - 1) + if bytes[n - 1] == 10 {
            1nat
        } else {
            0nat
        }
    }
}

/// Where the line begins that holds position `at`.
pub open spec fn line_begin(bytes: Seq<u8>, at: int) -> int
    decreases at,
{
    if at <= 0 {
        0
    } else if bytes[at - 1] == 10 {
        at
    } else {
        line_begin(bytes, at - 1)
    }
}

/// The place of a byte: its line and its column, both from one.
pub open spec fn position_of(bytes: Seq<u8>, at: int) -> (int, int) {
    (line_feeds(bytes, at) as int + 1, at - line_begin(bytes, at) + 1)
}

/// At most the number of bytes.
pub open spec fn within(bytes: Seq<u8>, at: int) -> int {
    if at > bytes.len() {
        bytes.len() as int
    } else {
        at
    }
}

/// At most what a machine number holds.
pub open spec fn fit(n: int) -> usize {
    if n > usize::MAX {
        usize::MAX
    } else {
        n as usize
    }
}

/// The place of the bytes from `start` to `end`.
pub open spec fn place_of(bytes: Seq<u8>, start: int, end: int) -> Place {
    let a = position_of(bytes, within(bytes, start));
    let b = position_of(bytes, within(bytes, end));
    Place { line: fit(a.0), column: fit(a.1), end_line: fit(b.0), end_column: fit(b.1) }
}

/// The line of the text that holds the byte at `start`.
pub open spec fn line_at(source: Seq<char>, start: int) -> Seq<char> {
    let bytes = encode_utf8(source);
    let n = line_feeds(bytes, within(bytes, start)) as int;
    if n < lines_of(source).len() {
        lines_of(source)[n]
    } else {
        Seq::empty()
    }
}

/// The finding on the bytes from `start` to `end` of a file that is still to be named.
pub open spec fn offset_finding(
    rule_id: Seq<char>,
    severity: Severity,
    cwe: Option<Seq<char>>,
    description: Seq<char>,
    source: Seq<char>,
    start: int,
    end: int,
) -> FindingView {
    FindingView::plain(
        rule_id,
        severity,
        cwe,
        description,
        Seq::empty(),
        place_of(encode_utf8(source), start, end),
        line_at(source, start),
    )
}

/// The line and column of a byte, and how many lines come before it.
fn position(bytes: &[u8], at: usize) -> (r: (usize, usize, usize))
    ensures
        ({
            let p = position_of(bytes@, within(bytes@, at as int));
            &&& r.0 == fit(p.0)
            &&& r.1 == fit(p.1)
            &&& r.2 == line_feeds(bytes@, within(bytes@, at as int))
        }),
{
    let end: usize = if at > bytes.len() {
        bytes.len()
    } else {
        at
    };
    let mut feeds: usize = 0;
    let mut begin: usize = 0;
    let mut i: usize = 0;
    while i < end
        invariant
            i <= end <= bytes@.len(),
            feeds == line_feeds(bytes@, i as int),
            begin == line_begin(bytes@, i as int),
            feeds <= i,
            begin <= i,
        decreases end - i,
    {
        if bytes[i] == 10 {
            feeds = feeds + 1;
            begin = i + 1;
        }
        i = i + 1;
    }
    let line: usize = if feeds == usize::MAX {
        feeds
    } else {
        feeds + 1
    };
    let column: usize = if end - begin == usize::MAX {
        usize::MAX
    } else {
        end - begin + 1
    };
    (line, column, feeds)
}

/// A finding on the bytes from `start` to `end` of a file that is still to be named; its snippet is
/// the line it begins in.
pub fn make_finding_from_offsets(
    rule_id: &str,
    severity: Severity,
    cwe: Option<&str>,
    description: &str,
    source: &str,
    start: usize,
    end: usize,
) -> (r: Finding)
    ensures
        r@ == offset_finding(
            rule_id@,
            severity,
            match cwe {
                Some(c) => Some(c@),
                None => None,
            },
            description@,
            source@,
            start as int,
            end as int,
        ),
{
    let bytes = source.as_bytes();
    let (line, column, before) = position(bytes, start);
    let (end_line, end_column, _) = position(bytes, end);
    let all = lines(source);
    let ghost views = lines_of(source@);
    assert(views.len() == all@.len());
    let snippet: String = if before < all.len() {
        assert(views[before as int] == all@[before as int]@);
        all[before].clone()
    } else {
        String::new()
    };
    let cwe: Option<String> = match cwe {
        Some(c) => Some(owned(c)),
        None => None,
    };
    Finding::plain(
        owned(rule_id),
        severity,
        cwe,
        owned(description),
        String::new(),
        Place { line, column, end_line, end_column },
        snippet,
    )
}

/// What begins a line comment in a language.
pub open spec fn markers_of(language: Language) -> Seq<Seq<char>> {
    match language {
        Language::JavaScript
        | Language::TypeScript
        | Language::Tsx
        | Language::Go
        | Language::Java
        | Language::Rust
        | Language::CSharp
        | Language::Swift
        | Language::Kotlin
        | Language::C => seq!["//"@],
        Language::Php => seq!["//"@, "#"@],
        Language::Python
        | Language::Ruby
        | Language::Bash
        | Language::NginxConf
        | Language::ApacheConf
        | Language::HAProxyConf
        | Language::Dockerfile
        | Language::Manifest => seq!["#"@],
    }
}

/// What begins a line comment in a language.
pub fn comment_markers(language: Language) -> (r: Vec<&'static str>)
    ensures
        r@.map_values(|s: &'static str| s@) == markers_of(language),
{
    let r: Vec<&'static str> = match language {
        Language::JavaScript
        | Language::TypeScript
        | Language::Tsx
        | Language::Go
        | Language::Java
        | Language::Rust
        | Language::CSharp
        | Language::Swift
        | Language::Kotlin
        | Language::C => vec!["//"],
        Language::Php => vec!["//", "#"],
        Language::Python
        | Language::Ruby
        | Language::Bash
        | Language::NginxConf
        | Language::ApacheConf
        | Language::HAProxyConf
        | Language::Dockerfile
        | Language::Manifest => vec!["#"],
    };
    assert(r@.map_values(|s: &'static str| s@) =~= markers_of(language));
    r
}

} // verus!
