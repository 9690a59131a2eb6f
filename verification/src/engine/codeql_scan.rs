//! Scanning with CodeQL: languages, databases, running the tool, and what comes of it.

use crate::bytes::{text_from_bytes, utf8_lossy};
use crate::document::{json_document, parse_json, parse_yaml, yaml_document, Node};
use crate::engine::artifact::{absolute_names, normalize_absolute_path, sarif_uri_path, uri_path};
use crate::engine::codeql::{place_at_most, place_le, rule_views, CodeQlRule, RuleView};
use crate::engine::sarif::{findings_of_document, live_document_findings, SourceFile};
use crate::finding::{copy_opt, finding_views, Finding, FindingView};
use crate::paths::{absolute, is_absolute, path_parts, rooted, rooted_path, same_path};
use crate::sort::{
    ascending, lemma_sort_map, sort_stable, sorting_orders_and_permutes, stable_sort,
    total_preorder,
};
use crate::text::{
    after_prefix, at_most, chars_of, contains_string, decimal, decimal_string, is_space,
    is_white_space, lemma_text_le_antisymmetric, lemma_text_le_reflexive, lemma_text_le_total,
    lemma_text_le_transitive, lemma_texts_push, lines, lines_of, lower_text, opt_text, owned,
    parse_u64, parse_unsigned, same, split, split_text, string_between, strip_prefix, text_le, texts,
    to_ascii_lowercase, trim, trim_text,
};
use vstd::prelude::*;

verus! {

// ---------------------------------------------------------------------------
// Languages
// ---------------------------------------------------------------------------

/// The word names a language family.
pub open spec fn is_language(word: Seq<char>) -> bool {
    word == "cpp"@ || word == "python"@ || word == "javascript"@ || word == "java"@ || word == "go"@
        || word == "csharp"@ || word == "ruby"@ || word == "swift"@
}

fn names_language(word: &str) -> (r: bool)
    ensures
        r == is_language(word@),
{
    same(word, "cpp") || same(word, "python") || same(word, "javascript") || same(word, "java")
        || same(word, "go") || same(word, "csharp") || same(word, "ruby") || same(word, "swift")
}

/// The character ends the first part of an imported name.
pub open spec fn ends_token(c: char) -> bool {
    is_space(c) || c == '/' || c == '.' || c == ';'
}

/// Where the first part of an imported name ends, from `i` on.
pub open spec fn token_end(s: Seq<char>, i: int) -> int
    decreases s.len() - i,
{
    if i < 0 || i >= s.len() || ends_token(s[i]) {
        i
    } else {
        token_end(s, i + 1)
    }
}

/// The language that a line of a query imports.
pub open spec fn line_language(line: Seq<char>) -> Option<Seq<char>> {
    match after_prefix(trim_text(line), "import "@) {
        None => None,
        Some(rest) => {
            let token = rest.take(token_end(rest, 0));
            if is_language(token) {
                Some(token)
            } else {
                None
            }
        },
    }
}

/// The language that the first line from `i` on that imports one imports.
pub open spec fn import_language(all: Seq<Seq<char>>, i: int) -> Option<Seq<char>>
    decreases all.len() - i,
{
    if i < 0 || i >= all.len() {
        None
    } else {
        match line_language(all[i]) {
            Some(l) => Some(l),
            None => import_language(all, i + 1),
        }
    }
}

fn language_of_line(line: &str) -> (r: Option<String>)
    ensures
        opt_text(r) == line_language(line@),
{
    let trimmed = trim(line);
    match strip_prefix(trimmed.as_str(), "import ") {
        None => None,
        Some(rest) => {
            let c = chars_of(rest.as_str());
            let mut i: usize = 0;
            while i < c.len() && !(is_white_space(c[i]) || c[i] == '/' || c[i] == '.' || c[i]
                == ';')
                invariant
                    i <= c@.len(),
                    c@ == rest@,
                    token_end(rest@, 0) == token_end(rest@, i as int),
                decreases c@.len() - i,
            {
                i = i + 1;
            }
            let token = string_between(&c, 0, i);
            assert(token@ =~= rest@.take(token_end(rest@, 0)));
            if names_language(token.as_str()) {
                Some(token)
            } else {
                None
            }
        },
    }
}

/// The language that a query imports.
pub fn language_from_query_imports(content: &str) -> (r: Option<String>)
    ensures
        opt_text(r) == import_language(lines_of(content@), 0),
{
    let all = lines(content);
    let ghost views = texts(all@);
    let mut i: usize = 0;
    while i < all.len()
        invariant
            i <= all@.len(),
            views == texts(all@),
            views == lines_of(content@),
            import_language(views, 0) == import_language(views, i as int),
        decreases all@.len() - i,
    {
        assert(views[i as int] == all@[i as int]@);
        let found = language_of_line(all[i].as_str());
        if found.is_some() {
            return found;
        }
        i = i + 1;
    }
    None
}

/// The language family of a file, by its extension; that may be written in any case.
pub open spec fn extension_language(extension: Seq<char>) -> Option<Seq<char>> {
    let e = lower_text(extension);
    if e == "c"@ || e == "cc"@ || e == "cpp"@ || e == "cxx"@ || e == "h"@ || e == "hpp"@ {
        Some("cpp"@)
    } else if e == "py"@ {
        Some("python"@)
    } else if e == "js"@ || e == "jsx"@ || e == "ts"@ || e == "tsx"@ {
        Some("javascript"@)
    } else if e == "java"@ {
        Some("java"@)
    } else if e == "go"@ {
        Some("go"@)
    } else if e == "cs"@ {
        Some("csharp"@)
    } else if e == "rb"@ {
        Some("ruby"@)
    } else if e == "swift"@ {
        Some("swift"@)
    } else {
        None
    }
}

/// The language family of a file, by its extension.
pub fn language_of_extension(extension: &str) -> (r: Option<String>)
    ensures
        opt_text(r) == extension_language(extension@),
{
    let lower = to_ascii_lowercase(extension);
    let e = lower.as_str();
    if same(e, "c") || same(e, "cc") || same(e, "cpp") || same(e, "cxx") || same(e, "h") || same(
        e,
        "hpp",
    ) {
        Some(owned("cpp"))
    } else if same(e, "py") {
        Some(owned("python"))
    } else if same(e, "js") || same(e, "jsx") || same(e, "ts") || same(e, "tsx") {
        Some(owned("javascript"))
    } else if same(e, "java") {
        Some(owned("java"))
    } else if same(e, "go") {
        Some(owned("go"))
    } else if same(e, "cs") {
        Some(owned("csharp"))
    } else if same(e, "rb") {
        Some(owned("ruby"))
    } else if same(e, "swift") {
        Some(owned("swift"))
    } else {
        None
    }
}

/// How many of the first `n` extensions belong to the language.
pub open spec fn files_in(extensions: Seq<Seq<char>>, language: Seq<char>, n: int) -> nat
    decreases n,
{
    if n <= 0 {
        0
    } else {
        files_in(extensions, language, n - 1) + if extension_language(extensions[n - 1]) == Some(
            language,
        ) {
            1nat
        } else {
            0nat
        }
    }
}

fn count_files(extensions: &Vec<String>, language: &str) -> (r: usize)
    ensures
        r == files_in(texts(extensions@), language@, extensions@.len() as int),
{
    let ghost all = texts(extensions@);
    let len: usize = extensions.len();
    let mut n: usize = 0;
    let mut i: usize = 0;
    while i < len
        invariant
            i <= len,
            len == extensions@.len(),
            all == texts(extensions@),
            n <= i,
            n == files_in(all, language@, i as int),
        decreases len - i,
    {
        assert(all[i as int] == extensions@[i as int]@);
        if let Some(l) = language_of_extension(extensions[i].as_str()) {
            if same(l.as_str(), language) {
                n = n + 1;
            }
        }
        i = i + 1;
    }
    n
}

/// The language is one that most of the files are written in, where any is known.
pub open spec fn is_most_common(extensions: Seq<Seq<char>>, language: Option<Seq<char>>) -> bool {
    let n = extensions.len() as int;
    match language {
        Some(l) => is_language(l) && files_in(extensions, l, n) > 0 && forall|other: Seq<char>|
            is_language(other) ==> #[trigger] files_in(extensions, other, n) <= files_in(
                extensions,
                l,
                n,
            ),
        None => forall|other: Seq<char>|
            is_language(other) ==> #[trigger] files_in(extensions, other, n) == 0,
    }
}

/// The language that most of the files are written in. Among languages with as many files each, any
/// may be chosen.
pub fn language_from_extensions(extensions: &Vec<String>) -> (r: Option<String>)
    ensures
        is_most_common(texts(extensions@), opt_text(r)),
{
    let ghost all = texts(extensions@);
    let ghost n = extensions@.len() as int;
    assert(all.len() == n);
    let candidates: [&str; 8] = [
        "cpp",
        "python",
        "javascript",
        "java",
        "go",
        "csharp",
        "ruby",
        "swift",
    ];
    let mut best: usize = 0;
    let mut most: usize = count_files(extensions, candidates[0]);
    let mut i: usize = 1;
    while i < 8
        invariant
            1 <= i <= 8,
            best < i,
            all == texts(extensions@),
            n == extensions@.len(),
            candidates@.len() == 8,
            candidates@[0]@ == "cpp"@,
            candidates@[1]@ == "python"@,
            candidates@[2]@ == "javascript"@,
            candidates@[3]@ == "java"@,
            candidates@[4]@ == "go"@,
            candidates@[5]@ == "csharp"@,
            candidates@[6]@ == "ruby"@,
            candidates@[7]@ == "swift"@,
            most == files_in(all, candidates@[best as int]@, n),
            forall|k: int| 0 <= k < i ==> files_in(all, (#[trigger] candidates@[k])@, n) <= most,
        decreases 8 - i,
    {
        let count: usize = count_files(extensions, candidates[i]);
        if count > most {
            best = i;
            most = count;
        }
        i = i + 1;
    }
    proof {
        assert forall|other: Seq<char>| is_language(other) implies #[trigger] files_in(
            all,
            other,
            n,
        ) <= most by {
            assert(files_in(all, candidates@[0]@, n) <= most);
            assert(files_in(all, candidates@[1]@, n) <= most);
            assert(files_in(all, candidates@[2]@, n) <= most);
            assert(files_in(all, candidates@[3]@, n) <= most);
            assert(files_in(all, candidates@[4]@, n) <= most);
            assert(files_in(all, candidates@[5]@, n) <= most);
            assert(files_in(all, candidates@[6]@, n) <= most);
            assert(files_in(all, candidates@[7]@, n) <= most);
        }
    }
    if most == 0 {
        None
    } else {
        Some(owned(candidates[best]))
    }
}

/// The language is that of a query: the one that it imports, or else one that most of the scanned
/// files are written in.
pub open spec fn is_inferred(
    query: Option<Seq<char>>,
    extensions: Seq<Seq<char>>,
    language: Option<Seq<char>>,
) -> bool {
    match query {
        Some(content) if import_language(lines_of(content), 0) is Some => language
            == import_language(lines_of(content), 0),
        _ => is_most_common(extensions, language),
    }
}

/// The language of a rule's query: the one that it imports, or else the one that most of the
/// scanned files are written in.
pub fn infer_query_language(query: &Option<String>, extensions: &Vec<String>) -> (r: Option<String>)
    ensures
        is_inferred(opt_text(*query), texts(extensions@), opt_text(r)),
{
    assert(texts(extensions@).len() == extensions@.len());
    if let Some(content) = query {
        let found = language_from_query_imports(content.as_str());
        if found.is_some() {
            return found;
        }
    }
    language_from_extensions(extensions)
}

// ---------------------------------------------------------------------------
// Running the tool
// ---------------------------------------------------------------------------

/// The seconds that a setting grants: a positive number, or else the default.
pub open spec fn granted(setting: Option<Seq<char>>, default: u64) -> u64 {
    match setting {
        Some(s) => match parse_unsigned(s, u64::MAX as nat) {
            Some(n) => if n > 0 {
                n as u64
            } else {
                default
            },
            None => default,
        },
        None => default,
    }
}

fn read_seconds(setting: &Option<String>, default_seconds: u64) -> (r: u64)
    ensures
        r == granted(opt_text(*setting), default_seconds),
{
    match setting {
        Some(s) => match parse_u64(s.as_str()) {
            Some(n) => if n > 0 {
                n
            } else {
                default_seconds
            },
            None => default_seconds,
        },
        None => default_seconds,
    }
}

/// How long an analysis may take, in seconds.
pub fn codeql_timeout(setting: &Option<String>) -> (r: u64)
    ensures
        r == granted(opt_text(*setting), 300),
{
    read_seconds(setting, 300)
}

/// How long building a database may take, in seconds.
pub fn codeql_create_timeout(setting: &Option<String>) -> (r: u64)
    ensures
        r == granted(opt_text(*setting), 900),
{
    read_seconds(setting, 900)
}

/// What a program printed on both of its streams.
pub open spec fn both_streams(stdout: Seq<char>, stderr: Seq<char>) -> Seq<char> {
    if trim_text(stderr).len() == 0 {
        trim_text(stdout)
    } else if trim_text(stdout).len() == 0 {
        trim_text(stderr)
    } else {
        trim_text(stdout) + "\n"@ + trim_text(stderr)
    }
}

/// What a program printed on both of its streams.
pub fn join_streams(stdout: &str, stderr: &str) -> (r: String)
    ensures
        r@ == both_streams(stdout@, stderr@),
{
    let out = trim(stdout);
    let err = trim(stderr);
    if chars_of(err.as_str()).len() == 0 {
        out
    } else if chars_of(out.as_str()).len() == 0 {
        err
    } else {
        let mut s: String = out;
        s.append("\n");
        s.append(err.as_str());
        s
    }
}

/// What a program printed on both of its streams, read as text.
pub fn process_message(stdout: &Vec<u8>, stderr: &Vec<u8>) -> (r: String)
    ensures
        r@ == both_streams(utf8_lossy(stdout@), utf8_lossy(stderr@)),
{
    let out = text_from_bytes(stdout);
    let err = text_from_bytes(stderr);
    join_streams(out.as_str(), err.as_str())
}

/// How the tool ended, with what it printed.
#[derive(Debug, PartialEq, Eq)]
pub enum ToolEnd {
    TimedOut,
    Failed(String),
    Succeeded,
}

/// Why the tool, named as given, brought nothing.
pub open spec fn tool_error(name: Seq<char>, end: ToolEnd, timeout: u64) -> Option<Seq<char>> {
    match end {
        ToolEnd::TimedOut => Some(name + " timed out after "@ + decimal(timeout as nat) + "s"@),
        ToolEnd::Failed(message) => Some(
            if message@.len() == 0 {
                name + " exited without output"@
            } else {
                message@
            },
        ),
        ToolEnd::Succeeded => None,
    }
}

fn tool_verdict(name: &str, end: ToolEnd, timeout: u64) -> (r: Result<(), String>)
    ensures
        match tool_error(name@, end, timeout) {
            None => r is Ok,
            Some(t) => r matches Err(e) && e@ == t,
        },
{
    match end {
        ToolEnd::TimedOut => {
            let mut s: String = owned(name);
            s.append(" timed out after ");
            s.append(decimal_string(timeout).as_str());
            s.append("s");
            Err(s)
        },
        ToolEnd::Failed(message) => {
            if chars_of(message.as_str()).len() == 0 {
                let mut s: String = owned(name);
                s.append(" exited without output");
                Err(s)
            } else {
                Err(message)
            }
        },
        ToolEnd::Succeeded => Ok(()),
    }
}

/// Whether an analysis brought results.
pub fn analyze_verdict(end: ToolEnd, timeout: u64) -> (r: Result<(), String>)
    ensures
        match tool_error("codeql"@, end, timeout) {
            None => r is Ok,
            Some(t) => r matches Err(e) && e@ == t,
        },
{
    tool_verdict("codeql", end, timeout)
}

/// Whether building a database brought one.
pub fn create_verdict(end: ToolEnd, timeout: u64) -> (r: Result<(), String>)
    ensures
        match tool_error("codeql database create"@, end, timeout) {
            None => r is Ok,
            Some(t) => r matches Err(e) && e@ == t,
        },
{
    tool_verdict("codeql database create", end, timeout)
}

/// What asking the tool for its version brought.
#[derive(Debug, PartialEq, Eq)]
pub enum ProbeEnd {
    Succeeded,
    /// It failed, with what it printed on its error stream.
    Failed(String),
    NotFound,
    /// It could not be run.
    NotRun(String),
}

/// Whether the tool is there.
pub fn probe_verdict(end: ProbeEnd) -> (r: Result<(), String>)
    ensures
        match end {
            ProbeEnd::Succeeded => r is Ok,
            ProbeEnd::Failed(stderr) => r matches Err(e) && e@ == (if trim_text(stderr@).len()
                == 0 {
                "codeql --version failed"@
            } else {
                trim_text(stderr@)
            }),
            ProbeEnd::NotFound => r matches Err(e) && e@ == "codeql not found on PATH"@,
            ProbeEnd::NotRun(error) => r matches Err(e) && e@
                == "failed to run codeql --version: "@ + error@,
        },
{
    match end {
        ProbeEnd::Succeeded => Ok(()),
        ProbeEnd::Failed(stderr) => {
            let message = trim(stderr.as_str());
            if chars_of(message.as_str()).len() == 0 {
                Err(owned("codeql --version failed"))
            } else {
                Err(message)
            }
        },
        ProbeEnd::NotFound => Err(owned("codeql not found on PATH")),
        ProbeEnd::NotRun(error) => {
            let mut s: String = owned("failed to run codeql --version: ");
            s.append(error.as_str());
            Err(s)
        },
    }
}

// ---------------------------------------------------------------------------
// Where the sources of a database stood
// ---------------------------------------------------------------------------

/// The place that a value of the metadata names, or what is wrong with it.
pub open spec fn source_root_of(key: Seq<char>, value: Seq<char>) -> Result<Seq<char>, Seq<char>> {
    match uri_path(value) {
        Err(e) => Err("invalid "@ + key + " value '"@ + value + "': "@ + e),
        Ok(path) => if !absolute(path) {
            Err(key + " value '"@ + value + "' is not an absolute path"@)
        } else {
            match absolute_names(path) {
                Err(e) => Err(e),
                Ok(names) => Ok(rooted(names)),
            }
        },
    }
}

/// The values of the metadata under a key; nothing where they are of no use.
pub open spec fn key_values(metadata: Node, key: Seq<char>) -> Option<Seq<Node>> {
    match metadata.field(key) {
        None => Some(Seq::empty()),
        Some(value) => if value.text() is Some {
            Some(seq![value])
        } else if value.items() is Some {
            value.items()
        } else if value is Null {
            Some(Seq::empty())
        } else {
            None
        },
    }
}

/// The places `before` and those that the first `n` values name, each once.
pub open spec fn with_values(
    before: Seq<Seq<char>>,
    key: Seq<char>,
    values: Seq<Node>,
    n: int,
    metadata_path: Seq<char>,
) -> Result<Seq<Seq<char>>, Seq<char>>
    decreases n,
{
    if n <= 0 {
        Ok(before)
    } else {
        match with_values(before, key, values, n - 1, metadata_path) {
            Err(e) => Err(e),
            Ok(found) => match values[n - 1].text() {
                None => Err(
                    "CodeQL database metadata "@ + metadata_path + " has a non-string "@ + key
                        + " entry"@,
                ),
                Some(value) => match source_root_of(key, value) {
                    Err(e) => Err(e),
                    Ok(root) => Ok(
                        if found.contains(root) {
                            found
                        } else {
                            found.push(root)
                        },
                    ),
                },
            },
        }
    }
}

/// The places `before` and those that the metadata names under a key.
pub open spec fn with_key(
    before: Result<Seq<Seq<char>>, Seq<char>>,
    metadata: Node,
    key: Seq<char>,
    metadata_path: Seq<char>,
) -> Result<Seq<Seq<char>>, Seq<char>> {
    match before {
        Err(e) => Err(e),
        Ok(found) => match key_values(metadata, key) {
            None => Err(
                "CodeQL database metadata "@ + metadata_path + " has an invalid "@ + key
                    + " value"@,
            ),
            Some(values) => with_values(found, key, values, values.len() as int, metadata_path),
        },
    }
}

/// The pieces of one path come before those of another, or are the same: the first that differ
/// decide.
pub open spec fn pieces_le(a: Seq<Seq<char>>, b: Seq<Seq<char>>, i: int) -> bool
    decreases a.len() - i,
{
    if i < 0 || i >= a.len() {
        true
    } else if i >= b.len() {
        false
    } else if a[i] == b[i] {
        pieces_le(a, b, i + 1)
    } else {
        text_le(a[i], b[i])
    }
}

/// The order of paths, piece by piece.
pub open spec fn path_order() -> spec_fn(Seq<char>, Seq<char>) -> bool {
    |a: Seq<char>, b: Seq<char>| pieces_le(split_text(a, '/'), split_text(b, '/'), 0)
}

fn path_at_most(a: &String, b: &String) -> (r: bool)
    ensures
        r == path_order()(a@, b@),
{
    let x = split(a.as_str(), '/');
    let y = split(b.as_str(), '/');
    let ghost v = split_text(a@, '/');
    let ghost w = split_text(b@, '/');
    let mut i: usize = 0;
    while i < x.len()
        invariant
            i <= x@.len(),
            i <= y@.len(),
            v == texts(x@),
            w == texts(y@),
            v == split_text(a@, '/'),
            w == split_text(b@, '/'),
            pieces_le(v, w, 0) == pieces_le(v, w, i as int),
        decreases x@.len() - i,
    {
        assert(v[i as int] == x@[i as int]@);
        if i >= y.len() {
            return false;
        }
        assert(w[i as int] == y@[i as int]@);
        if !same(x[i].as_str(), y[i].as_str()) {
            return at_most(x[i].as_str(), y[i].as_str());
        }
        i = i + 1;
    }
    true
}

/// The places that the metadata of a database names, each once, in the order of paths.
pub open spec fn metadata_roots(document: Result<Node, String>, metadata_path: Seq<char>) -> Result<
    Seq<Seq<char>>,
    Seq<char>,
> {
    match roots_found(document, metadata_path) {
        Err(e) => Err(e),
        Ok(found) => Ok(stable_sort(found, path_order())),
    }
}

/// The places that the metadata of a database names, each once, key by key.
pub open spec fn roots_found(document: Result<Node, String>, metadata_path: Seq<char>) -> Result<
    Seq<Seq<char>>,
    Seq<char>,
> {
    match document {
        Err(e) => Err(
            "failed to parse CodeQL database metadata "@ + metadata_path + ": "@ + e@,
        ),
        Ok(metadata) => with_key(
            with_key(
                with_key(
                    Ok(Seq::empty()),
                    metadata,
                    "sourceLocationPrefix"@,
                    metadata_path,
                ),
                metadata,
                "sourceLocationPrefixes"@,
                metadata_path,
            ),
            metadata,
            "sourceRoot"@,
            metadata_path,
        ),
    }
}

/// The outcome that a decision on a list of texts stands for.
pub open spec fn list_outcome(
    r: Result<Vec<String>, String>,
    d: Result<Seq<Seq<char>>, Seq<char>>,
) -> bool {
    match d {
        Ok(v) => r matches Ok(l) && texts(l@) == v,
        Err(t) => r matches Err(e) && e@ == t,
    }
}

fn read_source_root(key: &str, value: &str) -> (r: Result<String, String>)
    ensures
        crate::engine::artifact::text_outcome(r, source_root_of(key@, value@)),
{
    match sarif_uri_path(value) {
        Err(e) => {
            let mut s: String = owned("invalid ");
            s.append(key);
            s.append(" value '");
            s.append(value);
            s.append("': ");
            s.append(e.as_str());
            Err(s)
        },
        Ok(path) => {
            if !is_absolute(path.as_str()) {
                let mut s: String = owned(key);
                s.append(" value '");
                s.append(value);
                s.append("' is not an absolute path");
                return Err(s);
            }
            match normalize_absolute_path(path.as_str()) {
                Err(e) => Err(e),
                Ok(names) => Ok(rooted_path(&names)),
            }
        },
    }
}

proof fn lemma_values_error(
    before: Seq<Seq<char>>,
    key: Seq<char>,
    values: Seq<Node>,
    n: int,
    m: int,
    metadata_path: Seq<char>,
)
    requires
        0 <= n <= m,
        with_values(before, key, values, n, metadata_path) is Err,
    ensures
        with_values(before, key, values, m, metadata_path) == with_values(
            before,
            key,
            values,
            n,
            metadata_path,
        ),
    decreases m - n,
{
    if n < m {
        lemma_values_error(before, key, values, n, m - 1, metadata_path);
    }
}

fn add_codeql_source_root(found: Vec<String>, key: &str, value: &str) -> (r: Result<
    Vec<String>,
    String,
>)
    ensures
        match source_root_of(key@, value@) {
            Err(t) => r matches Err(e) && e@ == t,
            Ok(root) => r matches Ok(v) && texts(v@) == (if texts(found@).contains(root) {
                texts(found@)
            } else {
                texts(found@).push(root)
            }),
        },
{
    match read_source_root(key, value) {
        Err(e) => Err(e),
        Ok(root) => {
            let mut v = found;
            if !contains_string(&v, root.as_str()) {
                proof {
                    lemma_texts_push(v@, root);
                }
                v.push(root);
            }
            Ok(v)
        },
    }
}

fn metadata_problem(metadata_path: &str, what: &str, key: &str, end: &str) -> (r: String)
    ensures
        r@ == "CodeQL database metadata "@ + metadata_path@ + what@ + key@ + end@,
{
    let mut s: String = owned("CodeQL database metadata ");
    s.append(metadata_path);
    s.append(what);
    s.append(key);
    s.append(end);
    s
}

fn add_key(found: Vec<String>, metadata: &Node, key: &str, metadata_path: &str) -> (r: Result<
    Vec<String>,
    String,
>)
    ensures
        list_outcome(r, with_key(Ok(texts(found@)), *metadata, key@, metadata_path@)),
{
    let value = match metadata.get(key) {
        Some(v) => v,
        None => {
            return Ok(found);
        },
    };
    match value.untag() {
        Node::Text(t) => {
            proof {
                let values = seq![*value];
                assert(with_values(texts(found@), key@, values, 0, metadata_path@) == Ok::<
                    _,
                    Seq<char>,
                >(texts(found@)));
                assert(values[0].text() == Some(t@));
            }
            add_codeql_source_root(found, key, t.as_str())
        },
        Node::List(values) => {
            let ghost before = texts(found@);
            let mut v = found;
            let mut i: usize = 0;
            while i < values.len()
                invariant
                    i <= values@.len(),
                    before == texts(found@),
                    with_key(Ok(before), *metadata, key@, metadata_path@) == with_values(
                        before,
                        key@,
                        values@,
                        values@.len() as int,
                        metadata_path@,
                    ),
                    with_values(before, key@, values@, i as int, metadata_path@) == Ok::<
                        _,
                        Seq<char>,
                    >(texts(v@)),
                decreases values@.len() - i,
            {
                let outcome = match values[i].as_str() {
                    None => Err(
                        metadata_problem(metadata_path, " has a non-string ", key, " entry"),
                    ),
                    Some(text) => add_codeql_source_root(v, key, text),
                };
                match outcome {
                    Ok(now) => {
                        v = now;
                    },
                    Err(e) => {
                        proof {
                            lemma_values_error(
                                before,
                                key@,
                                values@,
                                i + 1,
                                values@.len() as int,
                                metadata_path@,
                            );
                        }
                        return Err(e);
                    },
                }
                i = i + 1;
            }
            Ok(v)
        },
        _ => match value {
            Node::Null => Ok(found),
            _ => Err(metadata_problem(metadata_path, " has an invalid ", key, " value")),
        },
    }
}

/// The places that the metadata of a database names, each once, in the order of paths.
pub fn source_roots_in(document: &Result<Node, String>, metadata_path: &str) -> (r: Result<
    Vec<String>,
    String,
>)
    ensures
        list_outcome(r, metadata_roots(*document, metadata_path@)),
{
    let metadata = match document {
        Ok(m) => m,
        Err(e) => {
            let mut s: String = owned("failed to parse CodeQL database metadata ");
            s.append(metadata_path);
            s.append(": ");
            s.append(e.as_str());
            return Err(s);
        },
    };
    let none: Vec<String> = Vec::new();
    assert(texts(none@) =~= Seq::<Seq<char>>::empty());
    let one = match add_key(none, metadata, "sourceLocationPrefix", metadata_path) {
        Ok(v) => v,
        Err(e) => {
            return Err(e);
        },
    };
    let two = match add_key(one, metadata, "sourceLocationPrefixes", metadata_path) {
        Ok(v) => v,
        Err(e) => {
            return Err(e);
        },
    };
    match add_key(two, metadata, "sourceRoot", metadata_path) {
        Ok(v) => {
            let mut roots = v;
            let ghost le = |a: String, b: String| path_order()(a@, b@);
            proof {
                lemma_sort_map(roots@, le, |s: String| s@, path_order());
            }
            sort_stable(&mut roots, path_at_most, Ghost(le));
            Ok(roots)
        },
        Err(e) => Err(e),
    }
}

/// The places that the text of a database's metadata names, each once, in the order of paths.
pub fn codeql_database_source_roots(content: &str, metadata_path: &str) -> (r: Result<
    Vec<String>,
    String,
>)
    ensures
        list_outcome(r, metadata_roots(yaml_document(content@), metadata_path@)),
{
    source_roots_in(&parse_yaml(content), metadata_path)
}

// ---------------------------------------------------------------------------
// Databases for rules
// ---------------------------------------------------------------------------

/// The database that is configured for a rule: its own, else the caller's, else the environment's.
pub open spec fn explicit_database(
    rule: RuleView,
    cli: Option<Seq<char>>,
    env: Option<Seq<char>>,
) -> Option<Seq<char>> {
    if rule.database is Some {
        rule.database
    } else if cli is Some {
        cli
    } else {
        env
    }
}

/// The database that is configured for a rule.
pub fn explicit_rule_database(
    rule: &CodeQlRule,
    cli_database: &Option<String>,
    env_database: &Option<String>,
) -> (r: Option<String>)
    ensures
        opt_text(r) == explicit_database(rule@, opt_text(*cli_database), opt_text(*env_database)),
{
    if rule.database.is_some() {
        copy_opt(&rule.database)
    } else if cli_database.is_some() {
        copy_opt(cli_database)
    } else {
        copy_opt(env_database)
    }
}

/// What came of building a database for a rule that has none.
#[derive(Debug, PartialEq, Eq)]
pub enum AutoDatabase {
    NoLanguage,
    Failed { language: String, error: String },
    Built(String),
}

/// How a scan was set up.
#[derive(Debug)]
pub struct ScanSetup {
    pub cli_database: Option<String>,
    pub env_database: Option<String>,
    pub scan_target: Option<String>,
    /// Whether the tool is there.
    pub probe: Result<(), String>,
}

/// How a notice on a rule that is skipped begins.
pub open spec fn skipping(rule: RuleView) -> Seq<char> {
    "Warning: CodeQL rule '"@ + rule.id + "' skipped: "@
}

/// What is said of a rule that has no database and gets none.
pub open spec fn no_database_notice(rule: RuleView) -> Seq<char> {
    skipping(rule) + "no database configured; set rule database, --codeql-db, or FOXGUARD_CODEQL_DB"@
}

/// What is said of a rule whose language cannot be told.
pub open spec fn no_language_notice(rule: RuleView) -> Seq<char> {
    skipping(rule) + "could not infer query language; add an `import <lang>` line to "@ + rule.query
        + " or set --codeql-db"@
}

/// The database to run a rule on, or why it is skipped.
pub open spec fn planned(rule: RuleView, setup: ScanSetup, auto: AutoDatabase) -> Result<
    Seq<char>,
    Seq<char>,
> {
    match explicit_database(rule, opt_text(setup.cli_database), opt_text(setup.env_database)) {
        Some(database) => Ok(database),
        None => if setup.scan_target is None || setup.probe is Err {
            Err(no_database_notice(rule))
        } else {
            match auto {
                AutoDatabase::NoLanguage => Err(no_language_notice(rule)),
                AutoDatabase::Failed { language, error } => Err(
                    skipping(rule) + "failed to auto-build "@ + language@ + " database for "@
                        + setup.scan_target.unwrap()@ + ": "@ + error@,
                ),
                AutoDatabase::Built(database) => Ok(database@),
            }
        },
    }
}

fn skipping_rule(rule: &CodeQlRule) -> (r: String)
    ensures
        r@ == skipping(rule@),
{
    let mut s: String = owned("Warning: CodeQL rule '");
    s.append(rule.id.as_str());
    s.append("' skipped: ");
    s
}

fn without_database(rule: &CodeQlRule) -> (r: String)
    ensures
        r@ == no_database_notice(rule@),
{
    let mut s: String = skipping_rule(rule);
    s.append("no database configured; set rule database, --codeql-db, or FOXGUARD_CODEQL_DB");
    s
}

fn without_language(rule: &CodeQlRule) -> (r: String)
    ensures
        r@ == no_language_notice(rule@),
{
    let mut s: String = skipping_rule(rule);
    s.append("could not infer query language; add an `import <lang>` line to ");
    s.append(rule.query.as_str());
    s.append(" or set --codeql-db");
    s
}

/// The database to run a rule on, or why it is skipped.
pub fn plan_rule(rule: &CodeQlRule, setup: &ScanSetup, auto: &AutoDatabase) -> (r: Result<
    String,
    String,
>)
    ensures
        crate::engine::artifact::text_outcome(r, planned(rule@, *setup, *auto)),
{
    if let Some(database) = explicit_rule_database(
        rule,
        &setup.cli_database,
        &setup.env_database,
    ) {
        return Ok(database);
    }
    let target = match (&setup.scan_target, &setup.probe) {
        (Some(target), Ok(_)) => target,
        _ => {
            return Err(without_database(rule));
        },
    };
    match auto {
        AutoDatabase::NoLanguage => Err(without_language(rule)),
        AutoDatabase::Failed { language, error } => {
            let mut s: String = skipping_rule(rule);
            s.append("failed to auto-build ");
            s.append(language.as_str());
            s.append(" database for ");
            s.append(target.as_str());
            s.append(": ");
            s.append(error.as_str());
            Err(s)
        },
        AutoDatabase::Built(database) => Ok(database.clone()),
    }
}

/// What is done to get the database that a rule runs on.
#[derive(Debug, PartialEq, Eq)]
pub enum DatabaseStep<T> {
    /// The rule runs on the database at this path.
    Use(T),
    /// A database for this language is to be built first.
    Build(T),
    /// The rule is skipped, for this reason.
    Skip(T),
}

impl View for DatabaseStep<String> {
    type V = DatabaseStep<Seq<char>>;

    open spec fn view(&self) -> DatabaseStep<Seq<char>> {
        match self {
            DatabaseStep::Use(s) => DatabaseStep::Use(s@),
            DatabaseStep::Build(s) => DatabaseStep::Build(s@),
            DatabaseStep::Skip(s) => DatabaseStep::Skip(s@),
        }
    }
}

/// The database that was built for a language, among those from the `i`-th on.
pub open spec fn built_for(built: Seq<(String, String)>, language: Seq<char>, i: int) -> Option<
    Seq<char>,
>
    decreases built.len() - i,
{
    if i < 0 || i >= built.len() {
        None
    } else if built[i].0@ == language {
        Some(built[i].1@)
    } else {
        built_for(built, language, i + 1)
    }
}

/// How a rule whose query is in the given language gets its database: a configured one is used,
/// then one that was built for the language before; only then is one built.
pub open spec fn step_for(
    rule: RuleView,
    setup: ScanSetup,
    language: Option<Seq<char>>,
    built: Seq<(String, String)>,
) -> DatabaseStep<Seq<char>> {
    match explicit_database(rule, opt_text(setup.cli_database), opt_text(setup.env_database)) {
        Some(database) => DatabaseStep::Use(database),
        None => if setup.scan_target is None || setup.probe is Err {
            DatabaseStep::Skip(no_database_notice(rule))
        } else {
            match language {
                None => DatabaseStep::Skip(no_language_notice(rule)),
                Some(l) => match built_for(built, l, 0) {
                    Some(database) => DatabaseStep::Use(database),
                    None => DatabaseStep::Build(l),
                },
            }
        },
    }
}

fn find_built(built: &Vec<(String, String)>, language: &str) -> (r: Option<String>)
    ensures
        opt_text(r) == built_for(built@, language@, 0),
{
    let mut i: usize = 0;
    while i < built.len()
        invariant
            i <= built@.len(),
            built_for(built@, language@, 0) == built_for(built@, language@, i as int),
        decreases built@.len() - i,
    {
        if same(built[i].0.as_str(), language) {
            return Some(built[i].1.clone());
        }
        i = i + 1;
    }
    None
}

/// Decides how a rule gets its database, from its query, the extensions of the files under the
/// target, and what was built for other rules.
pub fn database_step(
    rule: &CodeQlRule,
    setup: &ScanSetup,
    query: &Option<String>,
    extensions: &Vec<String>,
    built: &Vec<(String, String)>,
) -> (r: DatabaseStep<String>)
    ensures
        exists|language: Option<Seq<char>>|
            #[trigger] is_inferred(opt_text(*query), texts(extensions@), language) && r@ == step_for(
                rule@,
                *setup,
                language,
                built@,
            ),
{
    let inferred = infer_query_language(query, extensions);
    let ghost language = opt_text(inferred);
    assert(is_inferred(opt_text(*query), texts(extensions@), language));
    if let Some(database) = explicit_rule_database(
        rule,
        &setup.cli_database,
        &setup.env_database,
    ) {
        return DatabaseStep::Use(database);
    }
    if setup.scan_target.is_none() || setup.probe.is_err() {
        return DatabaseStep::Skip(without_database(rule));
    }
    match inferred {
        None => DatabaseStep::Skip(without_language(rule)),
        Some(l) => match find_built(built, l.as_str()) {
            Some(database) => DatabaseStep::Use(database),
            None => DatabaseStep::Build(l),
        },
    }
}

/// What came of a step, once a database that was to be built is built or not.
pub open spec fn settled_as(
    step: DatabaseStep<Seq<char>>,
    outcome: Result<Seq<char>, Seq<char>>,
    auto: AutoDatabase,
) -> bool {
    match step {
        DatabaseStep::Use(database) => auto matches AutoDatabase::Built(d) && d@ == database,
        DatabaseStep::Skip(_) => auto is NoLanguage,
        DatabaseStep::Build(language) => match outcome {
            Ok(database) => auto matches AutoDatabase::Built(d) && d@ == database,
            Err(error) => auto matches AutoDatabase::Failed { language: l, error: e } && l@
                == language && e@ == error,
        },
    }
}

/// What came of a step, once a database that was to be built is built or not.
pub fn settle_step(step: DatabaseStep<String>, outcome: Result<String, String>) -> (r: AutoDatabase)
    ensures
        settled_as(
            step@,
            match outcome {
                Ok(s) => Ok(s@),
                Err(e) => Err(e@),
            },
            r,
        ),
{
    match step {
        DatabaseStep::Use(database) => AutoDatabase::Built(database),
        DatabaseStep::Skip(_) => AutoDatabase::NoLanguage,
        DatabaseStep::Build(language) => match outcome {
            Ok(database) => AutoDatabase::Built(database),
            Err(error) => AutoDatabase::Failed { language, error },
        },
    }
}

/// A rule runs on the database that its step uses or builds, and is skipped for the reason that its
/// step gives.
pub proof fn rules_run_where_their_steps_say(
    rule: RuleView,
    setup: ScanSetup,
    language: Option<Seq<char>>,
    built: Seq<(String, String)>,
    outcome: Result<Seq<char>, Seq<char>>,
    auto: AutoDatabase,
)
    requires
        settled_as(step_for(rule, setup, language, built), outcome, auto),
    ensures
        match step_for(rule, setup, language, built) {
            DatabaseStep::Use(database) => planned(rule, setup, auto) == Ok::<_, Seq<char>>(
                database,
            ),
            DatabaseStep::Skip(notice) => planned(rule, setup, auto) == Err::<Seq<char>, _>(notice),
            DatabaseStep::Build(_) => match outcome {
                Ok(database) => planned(rule, setup, auto) == Ok::<_, Seq<char>>(database),
                Err(_) => planned(rule, setup, auto) is Err,
            },
        },
{
}

/// A database is built at most once for a language: once it is there, every rule of the language
/// that has none of its own uses it.
pub proof fn one_database_per_language(
    rule: RuleView,
    setup: ScanSetup,
    language: Seq<char>,
    built: Seq<(String, String)>,
    i: int,
)
    requires
        0 <= i < built.len(),
        built[i].0@ == language,
    ensures
        !(step_for(rule, setup, Some(language), built) is Build),
        explicit_database(rule, opt_text(setup.cli_database), opt_text(setup.env_database)) is None
            && setup.scan_target is Some && setup.probe is Ok ==> exists|k: int|
            0 <= k <= i && (#[trigger] built[k]).0@ == language && step_for(
                rule,
                setup,
                Some(language),
                built,
            ) == DatabaseStep::Use(built[k].1@),
{
    let k = lemma_built_for(built, language, 0, i);
    assert(built[k].0@ == language);
}

proof fn lemma_built_for(
    built: Seq<(String, String)>,
    language: Seq<char>,
    from: int,
    i: int,
) -> (k: int)
    requires
        0 <= from <= i < built.len(),
        built[i].0@ == language,
    ensures
        from <= k <= i,
        built[k].0@ == language,
        built_for(built, language, from) == Some(built[k].1@),
    decreases i - from,
{
    if built[from].0@ == language {
        from
    } else {
        lemma_built_for(built, language, from + 1, i)
    }
}

// ---------------------------------------------------------------------------
// The scan
// ---------------------------------------------------------------------------

/// What running a rule brought.
#[derive(Debug)]
pub enum RuleRun {
    Failed(String),
    /// A document of results, which may not be readable, and the files that it names.
    Finished { document: Result<Node, String>, files: Vec<SourceFile> },
}

/// The run of a rule that brought the given text.
pub fn finished_run(sarif: &str, files: Vec<SourceFile>) -> (r: RuleRun)
    ensures
        r == (RuleRun::Finished { document: json_document(sarif@), files }),
{
    RuleRun::Finished { document: parse_json(sarif), files }
}

/// What a scan with CodeQL brought.
#[derive(Debug)]
pub struct CodeQlScanResult {
    pub findings: Vec<Finding>,
    pub files_scanned: usize,
    pub candidate_rules: usize,
    pub notices: Vec<String>,
}

/// What is said of the first `n` rules that are skipped.
pub open spec fn skipped_notices(
    rules: Seq<RuleView>,
    setup: ScanSetup,
    autos: Seq<AutoDatabase>,
    n: int,
) -> Seq<Seq<char>>
    decreases n,
{
    if n <= 0 {
        Seq::empty()
    } else {
        let before = skipped_notices(rules, setup, autos, n - 1);
        match planned(rules[n - 1], setup, autos[n - 1]) {
            Ok(_) => before,
            Err(notice) => before.push(notice),
        }
    }
}

/// One of the texts is the same path.
pub open spec fn holds_path(paths: Seq<Seq<char>>, path: Seq<char>) -> bool {
    exists|i: int| 0 <= i < paths.len() && path_parts(#[trigger] paths[i]) == path_parts(path)
}

fn is_among(paths: &Vec<String>, path: &str) -> (r: bool)
    ensures
        r == holds_path(texts(paths@), path@),
{
    let ghost all = texts(paths@);
    let mut i: usize = 0;
    while i < paths.len()
        invariant
            i <= paths@.len(),
            all == texts(paths@),
            forall|k: int| 0 <= k < i ==> path_parts(#[trigger] all[k]) != path_parts(path@),
        decreases paths@.len() - i,
    {
        assert(all[i as int] == paths@[i as int]@);
        if same_path(paths[i].as_str(), path) {
            return true;
        }
        i = i + 1;
    }
    false
}

/// What the runs of the first `n` rules brought: findings, the databases that were analysed, each
/// path once, and what is said of failures.
pub struct RunsView {
    pub findings: Seq<FindingView>,
    pub databases: Seq<Seq<char>>,
    pub notices: Seq<Seq<char>>,
}

pub open spec fn runs_of(
    rules: Seq<RuleView>,
    setup: ScanSetup,
    autos: Seq<AutoDatabase>,
    runs: Seq<RuleRun>,
    n: int,
) -> RunsView
    decreases n,
{
    if n <= 0 {
        RunsView { findings: Seq::empty(), databases: Seq::empty(), notices: Seq::empty() }
    } else {
        let before = runs_of(rules, setup, autos, runs, n - 1);
        match planned(rules[n - 1], setup, autos[n - 1]) {
            Err(_) => before,
            Ok(database) => match runs[n - 1] {
                RuleRun::Failed(error) => RunsView {
                    notices: before.notices.push(
                        "Warning: CodeQL rule '"@ + rules[n - 1].id + "' failed: "@ + error@,
                    ),
                    ..before
                },
                RuleRun::Finished { document, files } => RunsView {
                    findings: before.findings + live_document_findings(
                        rules[n - 1],
                        document,
                        files@,
                    ),
                    databases: if holds_path(before.databases, database) {
                        before.databases
                    } else {
                        before.databases.push(database)
                    },
                    ..before
                },
            },
        }
    }
}

/// The one thing that is said where the tool is missing: for a single rule without a database that
/// one must be configured, else that the tool must be installed.
pub open spec fn missing_tool_notice(rules: Seq<RuleView>, setup: ScanSetup) -> Seq<char> {
    if rules.len() == 1 && explicit_database(
        rules[0],
        opt_text(setup.cli_database),
        opt_text(setup.env_database),
    ) is None {
        no_database_notice(rules[0])
    } else {
        "Warning: CodeQL engine skipped: "@ + setup.probe->Err_0@
            + "; install CodeQL (`codeql`) to run engine: codeql rules"@
    }
}

/// Findings are ordered by file, line, column and rule.
pub open spec fn finding_order() -> spec_fn(FindingView, FindingView) -> bool {
    |a: FindingView, b: FindingView| place_le(a, b)
}

/// The scan's result.
pub open spec fn scan_says(
    r: CodeQlScanResult,
    rules: Seq<RuleView>,
    setup: ScanSetup,
    autos: Seq<AutoDatabase>,
    runs: Seq<RuleRun>,
) -> bool {
    let n = rules.len() as int;
    &&& r.candidate_rules == n
    &&& if n == 0 {
        r.findings@.len() == 0 && r.files_scanned == 0 && r.notices@.len() == 0
    } else if setup.probe is Err {
        r.findings@.len() == 0 && r.files_scanned == 0 && texts(r.notices@) == seq![
            missing_tool_notice(rules, setup),
        ]
    } else {
        let all = runs_of(rules, setup, autos, runs, n);
        finding_views(r.findings@) == stable_sort(all.findings, finding_order())
            && r.files_scanned == all.databases.len() && texts(r.notices@) == skipped_notices(
            rules,
            setup,
            autos,
            n,
        ) + all.notices
    }
}

fn missing_tool(rules: &Vec<CodeQlRule>, setup: &ScanSetup, error: &str) -> (r: String)
    requires
        setup.probe matches Err(e) && e@ == error@,
    ensures
        r@ == missing_tool_notice(rule_views(rules@), *setup),
{
    assert(rule_views(rules@).len() == rules@.len());
    if rules.len() == 1 && explicit_rule_database(
        &rules[0],
        &setup.cli_database,
        &setup.env_database,
    ).is_none() {
        return without_database(&rules[0]);
    }
    let mut s: String = owned("Warning: CodeQL engine skipped: ");
    s.append(error);
    s.append("; install CodeQL (`codeql`) to run engine: codeql rules");
    s
}

/// What a scan brings, from how it was set up, what came of building a database for each rule that
/// has none, and what came of running each rule that has one. Without the tool nothing is run, and
/// one notice says so for all rules.
pub fn scan_with_notices_for_target(
    rules: &Vec<CodeQlRule>,
    setup: &ScanSetup,
    autos: &Vec<AutoDatabase>,
    runs: &Vec<RuleRun>,
) -> (r: CodeQlScanResult)
    requires
        autos@.len() == rules@.len(),
        runs@.len() == rules@.len(),
    ensures
        scan_says(r, rule_views(rules@), *setup, autos@, runs@),
{
    let ghost all = rule_views(rules@);
    let mut notices: Vec<String> = Vec::new();
    let mut plans: Vec<Option<String>> = Vec::new();
    if rules.len() == 0 {
        return CodeQlScanResult { findings: Vec::new(), files_scanned: 0, candidate_rules: 0, notices };
    }
    if let Err(error) = &setup.probe {
        let notice = missing_tool(rules, setup, error.as_str());
        let mut only: Vec<String> = Vec::new();
        only.push(notice);
        assert(texts(only@) =~= seq![notice@]);
        return CodeQlScanResult {
            findings: Vec::new(),
            files_scanned: 0,
            candidate_rules: rules.len(),
            notices: only,
        };
    }
    assert(texts(notices@) =~= Seq::<Seq<char>>::empty());
    let mut i: usize = 0;
    while i < rules.len()
        invariant
            i <= rules@.len(),
            all == rule_views(rules@),
            autos@.len() == rules@.len(),
            plans@.len() == i,
            texts(notices@) == skipped_notices(all, *setup, autos@, i as int),
            forall|k: int|
                0 <= k < i ==> match #[trigger] plans@[k] {
                    Some(d) => planned(all[k], *setup, autos@[k]) == Ok::<_, Seq<char>>(d@),
                    None => planned(all[k], *setup, autos@[k]) is Err,
                },
        decreases rules@.len() - i,
    {
        assert(all[i as int] == rules@[i as int]@);
        match plan_rule(&rules[i], setup, &autos[i]) {
            Ok(database) => {
                plans.push(Some(database));
            },
            Err(notice) => {
                proof {
                    lemma_texts_push(notices@, notice);
                }
                notices.push(notice);
                plans.push(None);
            },
        }
        i = i + 1;
    }
    run_rules(rules, setup, autos, runs, plans, notices)
}

fn run_rules(
    rules: &Vec<CodeQlRule>,
    setup: &ScanSetup,
    autos: &Vec<AutoDatabase>,
    runs: &Vec<RuleRun>,
    plans: Vec<Option<String>>,
    skipped: Vec<String>,
) -> (r: CodeQlScanResult)
    requires
        autos@.len() == rules@.len(),
        runs@.len() == rules@.len(),
        plans@.len() == rules@.len(),
        setup.probe is Ok,
        rules@.len() > 0,
        texts(skipped@) == skipped_notices(
            rule_views(rules@),
            *setup,
            autos@,
            rules@.len() as int,
        ),
        forall|k: int|
            0 <= k < rules@.len() ==> match #[trigger] plans@[k] {
                Some(d) => planned(rule_views(rules@)[k], *setup, autos@[k]) == Ok::<_, Seq<char>>(
                    d@,
                ),
                None => planned(rule_views(rules@)[k], *setup, autos@[k]) is Err,
            },
    ensures
        scan_says(r, rule_views(rules@), *setup, autos@, runs@),
{
    let ghost all = rule_views(rules@);
    let ghost start = texts(skipped@);
    let mut findings: Vec<Finding> = Vec::new();
    let mut databases: Vec<String> = Vec::new();
    let mut notices = skipped;
    proof {
        assert(finding_views(findings@) =~= Seq::<FindingView>::empty());
        assert(texts(databases@) =~= Seq::<Seq<char>>::empty());
        assert(start + Seq::<Seq<char>>::empty() =~= start);
    }
    let mut i: usize = 0;
    while i < rules.len()
        invariant
            i <= rules@.len(),
            all == rule_views(rules@),
            runs@.len() == rules@.len(),
            plans@.len() == rules@.len(),
            forall|k: int|
                0 <= k < rules@.len() ==> match #[trigger] plans@[k] {
                    Some(d) => planned(all[k], *setup, autos@[k]) == Ok::<_, Seq<char>>(d@),
                    None => planned(all[k], *setup, autos@[k]) is Err,
                },
            finding_views(findings@) == runs_of(all, *setup, autos@, runs@, i as int).findings,
            texts(databases@) == runs_of(all, *setup, autos@, runs@, i as int).databases,
            texts(notices@) == start + runs_of(all, *setup, autos@, runs@, i as int).notices,
        decreases rules@.len() - i,
    {
        assert(all[i as int] == rules@[i as int]@);
        let ghost before = runs_of(all, *setup, autos@, runs@, i as int);
        if let Some(database) = &plans[i] {
            match &runs[i] {
                RuleRun::Failed(error) => {
                    let mut s: String = owned("Warning: CodeQL rule '");
                    s.append(rules[i].id.as_str());
                    s.append("' failed: ");
                    s.append(error.as_str());
                    proof {
                        lemma_texts_push(notices@, s);
                        assert(start + before.notices.push(s@) =~= (start + before.notices).push(
                            s@,
                        ));
                    }
                    notices.push(s);
                },
                RuleRun::Finished { document, files } => {
                    let mut found = findings_of_document(&rules[i], document, files);
                    let ghost old_findings = findings@;
                    let ghost added = found@;
                    findings.append(&mut found);
                    assert(finding_views(old_findings + added) =~= finding_views(old_findings)
                        + finding_views(added));
                    if !is_among(&databases, database.as_str()) {
                        let d = database.clone();
                        proof {
                            lemma_texts_push(databases@, d);
                        }
                        databases.push(d);
                    }
                },
            }
        }
        i = i + 1;
    }
    let ghost le = |a: Finding, b: Finding| place_le(a@, b@);
    proof {
        lemma_sort_map(findings@, le, |f: Finding| f@, finding_order());
        assert(texts(databases@).len() == databases@.len());
    }
    sort_stable(&mut findings, place_at_most, Ghost(le));
    CodeQlScanResult {
        findings,
        files_scanned: databases.len(),
        candidate_rules: rules.len(),
        notices,
    }
}

/// What a scan brings where no database is built.
pub fn scan_with_notices(
    rules: &Vec<CodeQlRule>,
    cli_database: Option<String>,
    env_database: Option<String>,
    probe: Result<(), String>,
    runs: &Vec<RuleRun>,
) -> (r: CodeQlScanResult)
    requires
        runs@.len() == rules@.len(),
    ensures
        scan_says(
            r,
            rule_views(rules@),
            (ScanSetup { cli_database, env_database, scan_target: None, probe }),
            Seq::new(rules@.len(), |i: int| AutoDatabase::NoLanguage),
            runs@,
        ),
{
    let setup = ScanSetup { cli_database, env_database, scan_target: None, probe };
    let mut autos: Vec<AutoDatabase> = Vec::new();
    let mut i: usize = 0;
    while i < rules.len()
        invariant
            i <= rules@.len(),
            autos@.len() == i,
            forall|k: int| 0 <= k < i ==> #[trigger] autos@[k] == AutoDatabase::NoLanguage,
        decreases rules@.len() - i,
    {
        autos.push(AutoDatabase::NoLanguage);
        i = i + 1;
    }
    assert(autos@ =~= Seq::new(rules@.len(), |i: int| AutoDatabase::NoLanguage));
    scan_with_notices_for_target(rules, &setup, &autos, runs)
}

/// Without the tool a scan finds nothing, whatever databases there are, and says so once for all
/// rules.
pub proof fn without_the_tool_nothing_is_found(
    r: CodeQlScanResult,
    rules: Seq<RuleView>,
    setup: ScanSetup,
    autos: Seq<AutoDatabase>,
    runs: Seq<RuleRun>,
)
    requires
        scan_says(r, rules, setup, autos, runs),
        setup.probe is Err,
        rules.len() > 0,
    ensures
        r.findings@.len() == 0,
        r.files_scanned == 0,
        r.candidate_rules == rules.len(),
        r.notices@.len() == 1,
{
    assert(texts(r.notices@).len() == r.notices@.len());
}

/// The findings of a scan come in the order of their places, and none is lost or added.
pub proof fn scans_are_in_order(findings: Seq<FindingView>)
    ensures
        ascending(stable_sort(findings, finding_order()), finding_order()),
        stable_sort(findings, finding_order()).to_multiset() == findings.to_multiset(),
{
    let le = finding_order();
    assert(total_preorder(le)) by {
        assert forall|a: FindingView| #[trigger] le(a, a) by {
            lemma_text_le_reflexive(a.rule_id);
        }
        assert forall|a: FindingView, b: FindingView| #[trigger] le(a, b) || le(b, a) by {
            lemma_text_le_total(a.file, b.file);
            lemma_text_le_total(a.rule_id, b.rule_id);
        }
        assert forall|a: FindingView, b: FindingView, c: FindingView| #[trigger]
            le(a, b) && #[trigger] le(b, c) implies le(a, c) by {
            if a.file != b.file || b.file != c.file {
                lemma_text_le_reflexive(a.file);
                lemma_text_le_reflexive(b.file);
                lemma_text_le_transitive(a.file, b.file, c.file);
                if a.file == c.file {
                    lemma_text_le_antisymmetric(a.file, b.file);
                }
            } else if a.line == b.line && b.line == c.line && a.column == b.column && b.column
                == c.column {
                lemma_text_le_transitive(a.rule_id, b.rule_id, c.rule_id);
            }
        }
    }
    sorting_orders_and_permutes(findings, le);
}

} // verus!
