//! What is shown of a scan on a pull request: comments, check runs and their texts.

use crate::finding::{
    copy_findings, finding_views, lemma_finding_views_push, Finding, FindingView, Severity,
};
use crate::paths::joined;
use crate::pr_policy::{
    PrPolicyDecision, PrPolicyEvaluation, PrPolicyNotEvaluated, PrPolicyReport,
};
use crate::text::{
    after_prefix, chars_of, contains, contains_string, contains_text, decimal, decimal_string,
    eq_ignore_ascii_case, halves_at, is_ascii_alnum, is_ascii_alphanumeric, lines, lines_of,
    lower_text, opt_text, owned, parse_unsigned, parse_usize, same, split, split_once, split_text,
    string_between, strip_prefix, texts, trim, trim_end_char, trim_end_char_text, trim_start_char,
    trim_start_char_text, trim_text, words, words_of, Spacing,
};
use crate::url::{join_url, parse_url, url_joined, url_parts, ParsedUrl};
use vstd::prelude::*;
use vstd::utf8::encode_utf8;

verus! {

/// The version of the GitHub interface that requests ask for.
pub const GITHUB_API_VERSION: &'static str = "2026-03-10";

/// How many items a page of a listing holds.
pub const PAGE_SIZE: usize = 100;

/// How many annotations one check run may carry.
pub const MAX_ANNOTATIONS: usize = 50;

/// The marker by which this project's own comments are found again.
pub const COMMENT_MARKER: &'static str = "<!-- foxguard -->";

// ---------------------------------------------------------------------------
// Errors
// ---------------------------------------------------------------------------

/// What is known of a failed request.
#[derive(Debug, PartialEq, Eq)]
pub struct HttpFailure {
    pub message: String,
    /// No connection was made.
    pub connect: bool,
    /// The status that was answered.
    pub status: Option<u16>,
}

#[derive(Debug, PartialEq, Eq)]
pub enum ReviewError {
    InvalidApiBaseUrl(String),
    InvalidRepository(String),
    InvalidRepositoryWebUrl(String),
    InvalidEndpoint(String),
    Http(HttpFailure),
}

impl ReviewError {
    pub open spec fn text(&self) -> Seq<char> {
        match self {
            ReviewError::InvalidApiBaseUrl(e) => "invalid GitHub API base URL: "@ + e@,
            ReviewError::InvalidRepository(e) => "invalid GitHub repository: "@ + e@,
            ReviewError::InvalidRepositoryWebUrl(e) => "invalid GitHub repository web URL: "@ + e@,
            ReviewError::InvalidEndpoint(e) => "invalid GitHub API endpoint: "@ + e@,
            ReviewError::Http(e) => "GitHub review request failed: "@ + e.message@,
        }
    }

    /// The error in words.
    pub fn message(&self) -> (r: String)
        ensures
            r@ == self.text(),
    {
        match self {
            ReviewError::InvalidApiBaseUrl(e) => {
                let mut s = owned("invalid GitHub API base URL: ");
                s.append(e.as_str());
                s
            },
            ReviewError::InvalidRepository(e) => {
                let mut s = owned("invalid GitHub repository: ");
                s.append(e.as_str());
                s
            },
            ReviewError::InvalidRepositoryWebUrl(e) => {
                let mut s = owned("invalid GitHub repository web URL: ");
                s.append(e.as_str());
                s
            },
            ReviewError::InvalidEndpoint(e) => {
                let mut s = owned("invalid GitHub API endpoint: ");
                s.append(e.as_str());
                s
            },
            ReviewError::Http(e) => {
                let mut s = owned("GitHub review request failed: ");
                s.append(e.message.as_str());
                s
            },
        }
    }

    /// No request can have created anything: it was never sent, or it was refused.
    pub open spec fn nothing_created(&self) -> bool {
        match self {
            ReviewError::Http(e) => e.connect || (e.status matches Some(s) && 400 <= s < 500),
            _ => true,
        }
    }
}

/// Whether a failed creation surely created nothing.
pub fn check_create_definitely_did_not_happen(error: &ReviewError) -> (r: bool)
    ensures
        r == error.nothing_created(),
{
    match error {
        ReviewError::Http(e) => e.connect || match e.status {
            Some(s) => 400 <= s && s < 500,
            None => false,
        },
        _ => true,
    }
}

// ---------------------------------------------------------------------------
// Repositories and links
// ---------------------------------------------------------------------------

/// The owner and name of a repository.
#[derive(Debug, PartialEq, Eq)]
pub struct RepositoryPath {
    pub owner: String,
    pub name: String,
}

/// A piece of a repository's name: letters, digits, `.`, `_` and `-`, but not `.` or `..` alone.
pub open spec fn repo_segment(value: Seq<char>) -> bool {
    &&& value.len() > 0
    &&& value != "."@
    &&& value != ".."@
    &&& forall|i: int|
        0 <= i < value.len() ==> is_ascii_alnum(#[trigger] value[i]) || value[i] == '.' || value[i]
            == '_' || value[i] == '-'
}

/// Whether the text can be an owner or a name.
pub fn valid_repo_segment(value: &str) -> (r: bool)
    ensures
        r == repo_segment(value@),
{
    if value.is_empty() || same(value, ".") || same(value, "..") {
        return false;
    }
    let c = chars_of(value);
    let mut i: usize = 0;
    while i < c.len()
        invariant
            i <= c@.len(),
            c@ == value@,
            forall|k: int|
                0 <= k < i ==> is_ascii_alnum(#[trigger] c@[k]) || c@[k] == '.' || c@[k] == '_'
                    || c@[k] == '-',
        decreases c@.len() - i,
    {
        if !(is_ascii_alphanumeric(c[i]) || c[i] == '.' || c[i] == '_' || c[i] == '-') {
            return false;
        }
        i = i + 1;
    }
    true
}

/// Why a full name is no `owner/name`.
pub open spec fn repository_objection(full_name: Seq<char>) -> Option<Seq<char>> {
    let parts = split_text(full_name, '/');
    if parts.len() < 2 {
        Some("name is required"@)
    } else if parts.len() > 2 {
        Some("repository must be owner/name"@)
    } else if !repo_segment(parts[0]) || !repo_segment(parts[1]) {
        Some("repository path contains invalid characters"@)
    } else {
        None
    }
}

impl RepositoryPath {
    /// Reads `owner/name`.
    pub fn parse(full_name: &str) -> (r: Result<Self, ReviewError>)
        ensures
            match repository_objection(full_name@) {
                None => r matches Ok(p) && p.owner@ == split_text(full_name@, '/')[0] && p.name@
                    == split_text(full_name@, '/')[1],
                Some(text) => r matches Err(ReviewError::InvalidRepository(e)) && e@ == text,
            },
    {
        let parts = split(full_name, '/');
        let ghost views = texts(parts@);
        if parts.len() < 2 {
            return Err(ReviewError::InvalidRepository(owned("name is required")));
        }
        if parts.len() > 2 {
            return Err(ReviewError::InvalidRepository(owned("repository must be owner/name")));
        }
        assert(views[0] == parts@[0]@ && views[1] == parts@[1]@);
        if !valid_repo_segment(parts[0].as_str()) || !valid_repo_segment(parts[1].as_str()) {
            return Err(
                ReviewError::InvalidRepository(
                    owned("repository path contains invalid characters"),
                ),
            );
        }
        Ok(RepositoryPath { owner: parts[0].clone(), name: parts[1].clone() })
    }
}

/// A path below a repository's root without empty, `.` or `..` segments.
pub open spec fn repo_relative_path(path: Seq<char>) -> bool {
    let segments = split_text(path, '/');
    forall|i: int|
        0 <= i < segments.len() ==> (#[trigger] segments[i]).len() > 0 && segments[i] != "."@
            && segments[i] != ".."@
}

/// Whether the path stays below the root of a repository.
pub fn valid_repo_relative_path(path: &str) -> (r: bool)
    ensures
        r == repo_relative_path(path@),
{
    let segments = split(path, '/');
    let ghost views = texts(segments@);
    let mut i: usize = 0;
    while i < segments.len()
        invariant
            i <= segments@.len(),
            views == texts(segments@),
            views == split_text(path@, '/'),
            forall|k: int|
                0 <= k < i ==> (#[trigger] views[k]).len() > 0 && views[k] != "."@ && views[k]
                    != ".."@,
        decreases segments@.len() - i,
    {
        let s = segments[i].as_str();
        assert(views[i as int] == s@);
        if s.is_empty() || same(s, ".") || same(s, "..") {
            return false;
        }
        i = i + 1;
    }
    true
}

pub open spec fn hex_upper(n: nat) -> char {
    if n < 10 {
        (('0' as u32) + n) as char
    } else {
        (('A' as u32) + n - 10) as char
    }
}

/// The byte stands for itself in an address.
pub open spec fn unreserved(b: u8) -> bool {
    is_ascii_alnum(b as char) || b == 0x2d || b == 0x2e || b == 0x5f || b == 0x7e
}

/// The bytes with every one that does not stand for itself written as `%` and two digits.
pub open spec fn percent_encoded(bytes: Seq<u8>) -> Seq<char>
    decreases bytes.len(),
{
    if bytes.len() == 0 {
        Seq::empty()
    } else {
        let b = bytes.last();
        let head = percent_encoded(bytes.drop_last());
        if unreserved(b) {
            head.push(b as char)
        } else {
            head.push('%').push(hex_upper(b as nat / 16)).push(hex_upper(b as nat % 16))
        }
    }
}

fn hex_digit(n: u8) -> (r: char)
    requires
        n < 16,
    ensures
        r == hex_upper(n as nat),
{
    if n < 10 {
        (48 + n) as char
    } else {
        (65 + (n - 10)) as char
    }
}

/// Appends one segment of a path in the form it has in an address.
pub fn push_percent_encoded_path_segment(url: &mut String, segment: &str)
    ensures
        final(url)@ == old(url)@ + percent_encoded(encode_utf8(segment@)),
{
    let bytes = segment.as_bytes();
    let ghost all = encode_utf8(segment@);
    let ghost start = url@;
    let mut i: usize = 0;
    assert(start + percent_encoded(all.take(0)) =~= start);
    while i < bytes.len()
        invariant
            i <= bytes@.len(),
            bytes@ == all,
            url@ == start + percent_encoded(all.take(i as int)),
        decreases bytes@.len() - i,
    {
        let b = bytes[i];
        let ghost before = url@;
        proof {
            assert(all.take(i + 1).drop_last() =~= all.take(i as int));
        }
        if is_ascii_alphanumeric(b as char) || b == 0x2d || b == 0x2e || b == 0x5f || b == 0x7e {
            url.push(b as char);
        } else {
            url.push('%');
            url.push(hex_digit(b / 16));
            url.push(hex_digit(b % 16));
        }
        proof {
            assert(url@ =~= start + percent_encoded(all.take(i + 1)));
        }
        i = i + 1;
    }
    assert(all.take(i as int) =~= all);
}

/// The segments in the form they have in an address, with slashes between them.
pub open spec fn encoded_segments(segments: Seq<Seq<char>>) -> Seq<Seq<char>> {
    segments.map_values(|s: Seq<char>| percent_encoded(encode_utf8(s)))
}

/// A path in a form that no markup can be hidden in.
pub open spec fn display_path(path: Seq<char>) -> Seq<char> {
    joined(encoded_segments(split_text(path, '/')), "/"@)
}

/// A path in a form that no markup can be hidden in.
pub fn percent_encoded_display_path(path: &str) -> (r: String)
    ensures
        r@ == display_path(path@),
{
    let segments = split(path, '/');
    let ghost views = texts(segments@);
    let ghost all = encoded_segments(views);
    let mut r: String = String::new();
    let mut i: usize = 0;
    while i < segments.len()
        invariant
            i <= segments@.len(),
            views == texts(segments@),
            all == encoded_segments(views),
            r@ =~= joined(all.take(i as int), "/"@),
        decreases segments@.len() - i,
    {
        proof {
            assert(all.take(i + 1).drop_last() =~= all.take(i as int));
            assert(views[i as int] == segments@[i as int]@);
            reveal_strlit("/");
            assert(r@.push('/') =~= r@ + "/"@);
        }
        if i > 0 {
            r.push('/');
        }
        push_percent_encoded_path_segment(&mut r, segments[i].as_str());
        i = i + 1;
    }
    assert(all.take(i as int) =~= all);
    r
}

/// The scanned state of a repository, to which links point.
#[derive(Debug, PartialEq, Eq)]
pub struct SourceRevision {
    /// Where the repository is shown.
    pub repo_web_url: String,
    pub head_sha: String,
}

/// How many segments are not empty.
pub open spec fn named_segments(segments: Seq<Seq<char>>) -> nat {
    segments.filter(|s: Seq<char>| s.len() > 0).len()
}

/// Why an address does not show a repository.
pub open spec fn web_url_objection(url: ParsedUrl) -> Option<Seq<char>> {
    if url.scheme@ != "https"@ {
        Some("scheme must be https"@)
    } else if url.username@ != ""@ || url.has_password {
        Some("credentials are not allowed"@)
    } else if url.has_query || url.has_fragment {
        Some("query and fragment are not allowed"@)
    } else if url.host is None {
        Some("host is required"@)
    } else {
        match url.path_segments {
            None => Some("repository path is required"@),
            Some(segments) => if texts(segments@).contains("."@) || texts(segments@).contains(
                ".."@,
            ) {
                Some("path traversal segments are not allowed"@)
            } else if named_segments(texts(segments@)) < 2 {
                Some("repository owner/name path is required"@)
            } else {
                None
            },
        }
    }
}

fn count_named(segments: &Vec<String>) -> (n: usize)
    ensures
        n == named_segments(texts(segments@)),
{
    let ghost all = texts(segments@);
    let ghost p = |s: Seq<char>| s.len() > 0;
    let mut n: usize = 0;
    let mut i: usize = 0;
    while i < segments.len()
        invariant
            i <= segments@.len(),
            n <= i,
            all == texts(segments@),
            p == (|s: Seq<char>| s.len() > 0),
            n == all.take(i as int).filter(p).len(),
        decreases segments@.len() - i,
    {
        proof {
            assert(all[i as int] == segments@[i as int]@);
            assert(all.take(i + 1) =~= all.take(i as int).push(all[i as int]));
            all.take(i as int).lemma_filter_push(all[i as int], p);
        }
        if !segments[i].as_str().is_empty() {
            n = n + 1;
        }
        i = i + 1;
    }
    assert(all.take(i as int) =~= all);
    n
}

/// What a link to a place in a file ends with.
pub open spec fn line_anchor(line: usize, end_line: usize) -> Seq<char> {
    if line == 0 {
        Seq::empty()
    } else if end_line > line {
        "#L"@ + decimal(line as nat) + "-L"@ + decimal(end_line as nat)
    } else {
        "#L"@ + decimal(line as nat)
    }
}

/// Each segment behind a slash, in the form it has in an address.
pub open spec fn slashed(segments: Seq<Seq<char>>) -> Seq<char>
    decreases segments.len(),
{
    if segments.len() == 0 {
        Seq::empty()
    } else {
        slashed(segments.drop_last()) + "/"@ + percent_encoded(encode_utf8(segments.last()))
    }
}

impl SourceRevision {
    /// The address of a place in a file of the scanned state.
    pub open spec fn link(&self, file: Seq<char>, line: usize, end_line: usize) -> Option<
        Seq<char>,
    > {
        if repo_relative_path(file) {
            Some(
                trim_end_char_text(self.repo_web_url@, '/') + "/blob/"@ + percent_encoded(
                    encode_utf8(self.head_sha@),
                ) + slashed(split_text(file, '/')) + line_anchor(line, end_line),
            )
        } else {
            None
        }
    }

    /// Reads the address of a repository.
    pub fn new(repo_web_url: &str, head_sha: &str) -> (r: Result<Self, ReviewError>)
        ensures
            match url_parts(repo_web_url@) {
                Err(error) => r matches Err(ReviewError::InvalidRepositoryWebUrl(e)) && e@
                    == error@,
                Ok(url) => match web_url_objection(url) {
                    Some(text) => r matches Err(ReviewError::InvalidRepositoryWebUrl(e)) && e@
                        == text,
                    None => r matches Ok(s) && s.repo_web_url@ == url.text@ && s.head_sha@
                        == head_sha@,
                },
            },
    {
        SourceRevision::from_url(parse_url(repo_web_url), head_sha)
    }

    /// Judges the address of a repository by its parts.
    pub fn from_url(url: Result<ParsedUrl, String>, head_sha: &str) -> (r: Result<
        Self,
        ReviewError,
    >)
        ensures
            match url {
                Err(error) => r matches Err(ReviewError::InvalidRepositoryWebUrl(e)) && e@
                    == error@,
                Ok(url) => match web_url_objection(url) {
                    Some(text) => r matches Err(ReviewError::InvalidRepositoryWebUrl(e)) && e@
                        == text,
                    None => r matches Ok(s) && s.repo_web_url@ == url.text@ && s.head_sha@
                        == head_sha@,
                },
            },
    {
        let url = match url {
            Ok(url) => url,
            Err(e) => {
                return Err(ReviewError::InvalidRepositoryWebUrl(e));
            },
        };
        if !same(url.scheme.as_str(), "https") {
            return Err(ReviewError::InvalidRepositoryWebUrl(owned("scheme must be https")));
        }
        if !same(url.username.as_str(), "") || url.has_password {
            return Err(
                ReviewError::InvalidRepositoryWebUrl(owned("credentials are not allowed")),
            );
        }
        if url.has_query || url.has_fragment {
            return Err(
                ReviewError::InvalidRepositoryWebUrl(
                    owned("query and fragment are not allowed"),
                ),
            );
        }
        if url.host.is_none() {
            return Err(ReviewError::InvalidRepositoryWebUrl(owned("host is required")));
        }
        match &url.path_segments {
            None => {
                return Err(
                    ReviewError::InvalidRepositoryWebUrl(owned("repository path is required")),
                );
            },
            Some(segments) => {
                if contains_string(segments, ".") || contains_string(segments, "..") {
                    return Err(
                        ReviewError::InvalidRepositoryWebUrl(
                            owned("path traversal segments are not allowed"),
                        ),
                    );
                }
                if count_named(segments) < 2 {
                    return Err(
                        ReviewError::InvalidRepositoryWebUrl(
                            owned("repository owner/name path is required"),
                        ),
                    );
                }
            },
        }
        Ok(SourceRevision { repo_web_url: url.text, head_sha: owned(head_sha) })
    }

    /// The address of a place in a file of the scanned state, where the file's path stays below
    /// the repository's root.
    pub fn permalink(&self, file: &str, line: usize, end_line: usize) -> (r: Option<String>)
        ensures
            opt_text(r) == self.link(file@, line, end_line),
    {
        if !valid_repo_relative_path(file) {
            return None;
        }
        let mut link: String = trim_end_char(self.repo_web_url.as_str(), '/');
        link.append("/blob/");
        push_percent_encoded_path_segment(&mut link, self.head_sha.as_str());
        let segments = split(file, '/');
        let ghost views = texts(segments@);
        let ghost start = link@;
        let mut i: usize = 0;
        assert(start + slashed(views.take(0)) =~= start);
        while i < segments.len()
            invariant
                i <= segments@.len(),
                views == texts(segments@),
                link@ == start + slashed(views.take(i as int)),
            decreases segments@.len() - i,
        {
            let ghost before = link@;
            proof {
                assert(views.take(i + 1).drop_last() =~= views.take(i as int));
                assert(views[i as int] == segments@[i as int]@);
            }
            link.append("/");
            push_percent_encoded_path_segment(&mut link, segments[i].as_str());
            proof {
                assert(link@ =~= start + slashed(views.take(i + 1)));
            }
            i = i + 1;
        }
        proof {
            assert(views.take(i as int) =~= views);
        }
        if line > 0 {
            let ghost before = link@;
            link.append("#L");
            let n = decimal_string(line as u64);
            link.append(n.as_str());
            if end_line > line {
                link.append("-L");
                let m = decimal_string(end_line as u64);
                link.append(m.as_str());
            }
            assert(link@ =~= before + line_anchor(line, end_line));
        }
        assert(link@ =~= self.link(file@, line, end_line).unwrap());
        Some(link)
    }
}

/// Refuses a base of the interface that is no web address.
pub fn check_api_base_url(text: &str) -> (r: Result<(), ReviewError>)
    ensures
        match url_parts(text@) {
            Ok(_) => r is Ok,
            Err(x) => r matches Err(ReviewError::InvalidApiBaseUrl(e)) && e@ == x@,
        },
{
    match parse_url(text) {
        Ok(_) => Ok(()),
        Err(e) => Err(ReviewError::InvalidApiBaseUrl(e)),
    }
}

/// The address of an endpoint below the base of the interface.
pub open spec fn endpoint_url(base: ParsedUrl, endpoint: Seq<char>) -> Result<String, String> {
    match url_joined(base.text@, trim_end_char_text(base.path@, '/') + "/"@) {
        Ok(directory) => url_joined(directory@, endpoint),
        Err(e) => Err(e),
    }
}

/// The address of an endpoint below the base of the interface.
pub fn endpoint(api_base_url: &str, relative: &str) -> (r: Result<String, ReviewError>)
    ensures
        match url_parts(api_base_url@) {
            Err(error) => r matches Err(ReviewError::InvalidApiBaseUrl(e)) && e@ == error@,
            Ok(base) => match endpoint_url(base, relative@) {
                Ok(url) => r matches Ok(u) && u@ == url@,
                Err(error) => r matches Err(ReviewError::InvalidEndpoint(e)) && e@ == error@,
            },
        },
{
    match parse_url(api_base_url) {
        Err(e) => Err(ReviewError::InvalidApiBaseUrl(e)),
        Ok(base) => {
            let mut directory: String = trim_end_char(base.path.as_str(), '/');
            directory.append("/");
            match join_url(base.text.as_str(), directory.as_str()) {
                Err(e) => Err(ReviewError::InvalidEndpoint(e)),
                Ok(parent) => match join_url(parent.as_str(), relative) {
                    Ok(url) => Ok(url),
                    Err(e) => Err(ReviewError::InvalidEndpoint(e)),
                },
            }
        },
    }
}

// ---------------------------------------------------------------------------
// Earlier comments
// ---------------------------------------------------------------------------

#[derive(Debug, PartialEq, Eq)]
pub struct PerformedViaGitHubApp {
    pub id: u64,
}

#[derive(Debug, PartialEq, Eq)]
pub struct IssueComment {
    pub id: u64,
    pub body: Option<String>,
    pub performed_via_github_app: Option<PerformedViaGitHubApp>,
}

/// The comment carries the marker and was made by the given app.
pub open spec fn owned_marker(comment: IssueComment, app_id: u64) -> bool {
    &&& comment.body matches Some(body) && contains_text(body@, COMMENT_MARKER@)
    &&& comment.performed_via_github_app matches Some(app) && app.id == app_id
}

/// Whether the comment carries the marker and was made by the given app.
pub fn is_owned_marker_comment(comment: &IssueComment, app_id: u64) -> (r: bool)
    ensures
        r == owned_marker(*comment, app_id),
{
    let marked = match &comment.body {
        Some(body) => contains(body.as_str(), COMMENT_MARKER),
        None => false,
    };
    let mine = match &comment.performed_via_github_app {
        Some(app) => app.id == app_id,
        None => false,
    };
    marked && mine
}

/// The ids of the comments that the given app made with the marker, in order.
pub fn owned_foxguard_summary_comment_ids(comments: Vec<IssueComment>, app_id: u64) -> (r: Vec<u64>)
    ensures
        r@ == comments@.filter(|c: IssueComment| owned_marker(c, app_id)).map_values(
            |c: IssueComment| c.id,
        ),
{
    let ghost all = comments@;
    let ghost p = |c: IssueComment| owned_marker(c, app_id);
    let ghost f = |c: IssueComment| c.id;
    let mut r: Vec<u64> = Vec::new();
    let mut i: usize = 0;
    proof {
        assert(all.take(0) =~= Seq::<IssueComment>::empty());
        reveal(Seq::filter);
        assert(r@ =~= all.take(0).filter(p).map_values(f));
    }
    while i < comments.len()
        invariant
            i <= comments@.len(),
            all == comments@,
            p == (|c: IssueComment| owned_marker(c, app_id)),
            f == (|c: IssueComment| c.id),
            r@ == all.take(i as int).filter(p).map_values(f),
        decreases comments@.len() - i,
    {
        proof {
            assert(all.take(i + 1) =~= all.take(i as int).push(all[i as int]));
            all.take(i as int).lemma_filter_push(all[i as int], p);
            let kept = all.take(i as int).filter(p);
            assert(kept.push(all[i as int]).map_values(f) =~= kept.map_values(f).push(
                f(all[i as int]),
            ));
        }
        if is_owned_marker_comment(&comments[i], app_id) {
            r.push(comments[i].id);
        }
        i = i + 1;
    }
    assert(all.take(i as int) =~= all);
    r
}

/// What is done with the one message that sums a scan up.
#[derive(Debug, Clone, Copy, PartialEq, Eq, Structural)]
pub enum SummaryAction {
    Nothing,
    Create,
    Update(u64),
}

/// How earlier messages give way to the present one.
#[derive(Debug, PartialEq, Eq)]
pub struct ReviewPlan {
    pub summary: SummaryAction,
    /// Earlier summaries to delete once the present one is in place.
    pub delete_summaries: Vec<u64>,
}

#[derive(Debug, Clone, Copy, PartialEq, Eq, Structural)]
pub struct PostReviewOutcome {
    pub deleted_comments: usize,
    pub review_messages: usize,
}

#[derive(Debug, Clone, Copy, PartialEq, Eq, Structural)]
pub struct PostCheckRunOutcome {
    pub posted_annotations: usize,
}

/// The message that stays is the last of the earlier ones; without one, a message is made only
/// where there is something to say.
pub open spec fn summary_action(earlier: Seq<u64>, findings: nat) -> SummaryAction {
    if earlier.len() > 0 {
        SummaryAction::Update(earlier.last())
    } else if findings > 0 {
        SummaryAction::Create
    } else {
        SummaryAction::Nothing
    }
}

/// Decides how the summaries of earlier scans give way to the present one.
pub fn plan_review(owned_summary_comment_ids: Vec<u64>, review_findings: usize) -> (r: ReviewPlan)
    ensures
        r.summary == summary_action(owned_summary_comment_ids@, review_findings as nat),
        r.delete_summaries@ == if owned_summary_comment_ids@.len() > 0 {
            owned_summary_comment_ids@.drop_last()
        } else {
            owned_summary_comment_ids@
        },
{
    let mut ids = owned_summary_comment_ids;
    match ids.pop() {
        Some(id) => ReviewPlan { summary: SummaryAction::Update(id), delete_summaries: ids },
        None => ReviewPlan {
            summary: if review_findings > 0 {
                SummaryAction::Create
            } else {
                SummaryAction::Nothing
            },
            delete_summaries: ids,
        },
    }
}

impl ReviewPlan {
    /// What is reported once the plan is carried out.
    pub fn outcome(&self, deleted_comments: usize) -> (r: PostReviewOutcome)
        ensures
            r.deleted_comments == deleted_comments,
            r.review_messages == if self.summary is Nothing {
                0usize
            } else {
                1usize
            },
    {
        let review_messages: usize = match self.summary {
            SummaryAction::Nothing => 0,
            _ => 1,
        };
        PostReviewOutcome { deleted_comments, review_messages }
    }
}

// ---------------------------------------------------------------------------
// Paging
// ---------------------------------------------------------------------------

/// A link parameter that says `next` among its relations.
pub open spec fn says_next(parameter: Seq<char>) -> bool {
    halves_at(parameter, '=') matches Some(halves) && lower_text(trim_text(halves.0)) == lower_text(
        "rel"@,
    ) && words_of(
        trim_end_char_text(trim_start_char_text(trim_text(halves.1), '"'), '"'),
        Spacing::Ascii,
    ).contains("next"@)
}

/// One of the parameters behind the address of a link says `next`.
pub open spec fn entry_says_next(entry: Seq<char>) -> bool {
    exists|k: int|
        1 <= k < split_text(entry, ';').len() && says_next(
            trim_text(#[trigger] split_text(entry, ';')[k]),
        )
}

/// One of the links of a `Link` header leads to a next page.
pub open spec fn has_next(header: Seq<char>) -> bool {
    exists|i: int|
        0 <= i < split_text(header, ',').len() && entry_says_next(
            #[trigger] split_text(header, ',')[i],
        )
}

fn parameter_says_next(parameter: &str) -> (r: bool)
    ensures
        r == says_next(parameter@),
{
    match split_once(parameter, '=') {
        None => false,
        Some((name, value)) => {
            let name = trim(name.as_str());
            if !eq_ignore_ascii_case(name.as_str(), "rel") {
                return false;
            }
            let value = trim(value.as_str());
            let value = trim_start_char(value.as_str(), '"');
            let value = trim_end_char(value.as_str(), '"');
            let tokens = words(value.as_str(), Spacing::Ascii);
            contains_string(&tokens, "next")
        },
    }
}

fn link_says_next(entry: &str) -> (r: bool)
    ensures
        r == entry_says_next(entry@),
{
    let parts = split(entry, ';');
    let ghost views = split_text(entry@, ';');
    let mut k: usize = 1;
    while k < parts.len()
        invariant
            1 <= k,
            views == split_text(entry@, ';'),
            views == texts(parts@),
            forall|m: int| 1 <= m < k && m < views.len() ==> !says_next(trim_text(
                #[trigger] views[m],
            )),
        decreases parts@.len() - k,
    {
        assert(views[k as int] == parts@[k as int]@);
        let parameter = trim(parts[k].as_str());
        if parameter_says_next(parameter.as_str()) {
            return true;
        }
        k = k + 1;
    }
    false
}

/// Whether a `Link` header leads to a next page.
///
/// The address of a link is not looked at; the quotes around the relations are optional, and there
/// may be several.
pub fn link_header_has_next(header_value: &str) -> (r: bool)
    ensures
        r == has_next(header_value@),
{
    let entries = split(header_value, ',');
    let ghost views = split_text(header_value@, ',');
    let mut i: usize = 0;
    while i < entries.len()
        invariant
            i <= entries@.len(),
            views == split_text(header_value@, ','),
            views == texts(entries@),
            forall|m: int| 0 <= m < i ==> !entry_says_next(#[trigger] views[m]),
        decreases entries@.len() - i,
    {
        assert(views[i as int] == entries@[i as int]@);
        if link_says_next(entries[i].as_str()) {
            return true;
        }
        i = i + 1;
    }
    false
}

// ---------------------------------------------------------------------------
// Changed lines
// ---------------------------------------------------------------------------

/// The first word that begins with a plus sign.
pub open spec fn first_plus(parts: Seq<Seq<char>>, i: int) -> Option<Seq<char>>
    decreases parts.len() - i,
{
    if i >= parts.len() {
        None
    } else if parts[i].len() > 0 && parts[i][0] == '+' {
        Some(parts[i])
    } else {
        first_plus(parts, i + 1)
    }
}

/// The line of the new file at which a hunk begins.
pub open spec fn hunk_start(line: Seq<char>) -> Option<nat> {
    match after_prefix(line, "@@ "@) {
        None => None,
        Some(hunk) => match first_plus(words_of(hunk, Spacing::Unicode), 0) {
            None => None,
            Some(plus) => parse_unsigned(
                split_text(trim_start_char_text(plus, '+'), ',')[0],
                usize::MAX as nat,
            ),
        },
    }
}

/// The line of the new file at which a hunk begins.
pub fn hunk_new_start(line: &str) -> (r: Option<usize>)
    ensures
        match r {
            Some(n) => hunk_start(line@) == Some(n as nat),
            None => hunk_start(line@) is None,
        },
{
    let hunk = match strip_prefix(line, "@@ ") {
        Some(h) => h,
        None => {
            return None;
        },
    };
    let parts = words(hunk.as_str(), Spacing::Unicode);
    let ghost views = words_of(hunk@, Spacing::Unicode);
    let mut i: usize = 0;
    while i < parts.len()
        invariant
            i <= parts@.len(),
            views == texts(parts@),
            views == words_of(hunk@, Spacing::Unicode),
            after_prefix(line@, "@@ "@) == Some(hunk@),
            first_plus(views, 0) == first_plus(views, i as int),
        decreases parts@.len() - i,
    {
        assert(views[i as int] == parts@[i as int]@);
        let c = chars_of(parts[i].as_str());
        if c.len() > 0 && c[0] == '+' {
            let plain = trim_start_char(parts[i].as_str(), '+');
            let pieces = split(plain.as_str(), ',');
            proof {
                crate::text::lemma_split_nonempty(plain@, ',');
                assert(texts(pieces@)[0] == pieces@[0]@);
                assert(pieces@.len() == texts(pieces@).len());
            }
            return parse_usize(pieces[0].as_str());
        }
        i = i + 1;
    }
    None
}

/// The line of the new file that the `n`-th line of a patch stands at, once a hunk has begun.
pub open spec fn patch_position(patch: Seq<Seq<char>>, n: int) -> Option<nat>
    decreases n,
{
    if n <= 0 {
        None
    } else {
        let line = patch[n - 1];
        match hunk_start(line) {
            Some(start) => Some(start),
            None => match patch_position(patch, n - 1) {
                None => None,
                Some(at) => if line.len() > 0 && (line[0] == '+' || line[0] == ' ') {
                    Some(at + 1)
                } else {
                    Some(at)
                },
            },
        }
    }
}

/// The lines of the new file that the first `n` lines of a patch add.
pub open spec fn added_lines(patch: Seq<Seq<char>>, n: int) -> Seq<nat>
    decreases n,
{
    if n <= 0 {
        Seq::empty()
    } else {
        let line = patch[n - 1];
        let before = added_lines(patch, n - 1);
        match patch_position(patch, n - 1) {
            Some(at) => if hunk_start(line) is None && line.len() > 0 && line[0] == '+' {
                before.push(at)
            } else {
                before
            },
            None => before,
        }
    }
}

/// No line number of the patch exceeds what a machine number holds.
pub open spec fn positions_fit(patch: Seq<Seq<char>>) -> bool {
    forall|n: int|
        0 <= n <= patch.len() ==> (#[trigger] patch_position(patch, n) matches Some(at) ==> at
            <= usize::MAX)
}

/// Whether no line number of the patch exceeds what a machine number holds.
pub fn patch_positions_fit(patch: &str) -> (r: bool)
    ensures
        r == positions_fit(lines_of(patch@)),
{
    let all = lines(patch);
    let ghost views = lines_of(patch@);
    let mut at: Option<usize> = None;
    let mut i: usize = 0;
    while i < all.len()
        invariant
            i <= all@.len(),
            views == texts(all@),
            views == lines_of(patch@),
            match at {
                Some(a) => patch_position(views, i as int) == Some(a as nat),
                None => patch_position(views, i as int) is None,
            },
            forall|n: int|
                0 <= n <= i ==> (#[trigger] patch_position(views, n) matches Some(a) ==> a
                    <= usize::MAX),
        decreases all@.len() - i,
    {
        assert(views[i as int] == all@[i as int]@);
        let line = all[i].as_str();
        let c = chars_of(line);
        match hunk_new_start(line) {
            Some(start) => {
                at = Some(start);
            },
            None => {
                if let Some(a) = at {
                    if c.len() > 0 && (c[0] == '+' || c[0] == ' ') {
                        if a == usize::MAX {
                            assert(patch_position(views, i + 1) == Some((a + 1) as nat));
                            return false;
                        }
                        at = Some(a + 1);
                    }
                }
            },
        }
        i = i + 1;
    }
    true
}

/// The numbers as machine numbers.
pub open spec fn as_lines(s: Seq<nat>) -> Seq<usize> {
    s.map_values(|n: nat| n as usize)
}

/// The lines of the new file that a patch adds, in order.
pub fn added_lines_from_patch(patch: Option<&str>) -> (r: Option<Vec<usize>>)
    requires
        patch matches Some(p) ==> positions_fit(lines_of(p@)),
    ensures
        match patch {
            None => r is None,
            Some(p) => r matches Some(v) && v@ == as_lines(
                added_lines(lines_of(p@), lines_of(p@).len() as int),
            ),
        },
{
    let patch = match patch {
        Some(p) => p,
        None => {
            return None;
        },
    };
    let all = lines(patch);
    let ghost views = lines_of(patch@);
    let mut r: Vec<usize> = Vec::new();
    let mut at: Option<usize> = None;
    let mut i: usize = 0;
    assert(r@ =~= as_lines(added_lines(views, 0)));
    while i < all.len()
        invariant
            i <= all@.len(),
            views == texts(all@),
            positions_fit(views),
            match at {
                Some(a) => patch_position(views, i as int) == Some(a as nat),
                None => patch_position(views, i as int) is None,
            },
            r@ == as_lines(added_lines(views, i as int)),
        decreases all@.len() - i,
    {
        assert(views[i as int] == all@[i as int]@);
        let line = all[i].as_str();
        let c = chars_of(line);
        let ghost before = added_lines(views, i as int);
        match hunk_new_start(line) {
            Some(start) => {
                at = Some(start);
            },
            None => {
                if let Some(a) = at {
                    if c.len() > 0 && (c[0] == '+' || c[0] == ' ') {
                        proof {
                            assert(patch_position(views, i + 1) == Some((a + 1) as nat));
                            assert(as_lines(before.push(a as nat)) =~= as_lines(before).push(a));
                        }
                        if c[0] == '+' {
                            r.push(a);
                        }
                        at = Some(a + 1);
                    }
                }
            },
        }
        i = i + 1;
    }
    Some(r)
}

/// One changed file of a pull request and the lines that were added to it.
#[derive(Debug, PartialEq, Eq)]
pub struct ChangedFile {
    pub file: String,
    pub lines: Vec<usize>,
}

/// The lines that were added to a file, if it changed. Of two entries the later counts.
pub open spec fn changed_lines_of(changed: Seq<ChangedFile>, file: Seq<char>) -> Option<Seq<usize>>
    decreases changed.len(),
{
    if changed.len() == 0 {
        None
    } else if changed.last().file@ == file {
        Some(changed.last().lines@)
    } else {
        changed_lines_of(changed.drop_last(), file)
    }
}

/// The finding stands on an added line, or names no line of a changed file.
pub open spec fn touches(changed: Seq<ChangedFile>) -> spec_fn(FindingView) -> bool {
    |f: FindingView|
        changed_lines_of(changed, f.file) matches Some(lines) && (f.line == 0 || lines.contains(
            f.line,
        ))
}

fn is_touched(finding: &Finding, changed: &Vec<ChangedFile>) -> (r: bool)
    ensures
        r == touches(changed@)(finding@),
{
    let mut n: usize = changed.len();
    assert(changed@.take(n as int) =~= changed@);
    while n > 0
        invariant
            n <= changed@.len(),
            changed_lines_of(changed@, finding.file@) == changed_lines_of(
                changed@.take(n as int),
                finding.file@,
            ),
        decreases n,
    {
        let entry = &changed[n - 1];
        proof {
            assert(changed@.take(n as int).last() == *entry);
            assert(changed@.take(n as int).drop_last() =~= changed@.take(n - 1));
        }
        if same(entry.file.as_str(), finding.file.as_str()) {
            if finding.line == 0 {
                return true;
            }
            let mut k: usize = 0;
            while k < entry.lines.len()
                invariant
                    k <= entry.lines@.len(),
                    finding.line != 0,
                    changed_lines_of(changed@, finding.file@) == Some(entry.lines@),
                    forall|m: int| 0 <= m < k ==> entry.lines@[m] != finding.line,
                decreases entry.lines@.len() - k,
            {
                if entry.lines[k] == finding.line {
                    assert(entry.lines@.contains(finding.line));
                    return true;
                }
                k = k + 1;
            }
            return false;
        }
        n = n - 1;
    }
    false
}

/// The findings that stand on added lines, and those without a line in changed files.
pub fn filter_findings_to_changed_lines(findings: &[Finding], changed: &Vec<ChangedFile>) -> (r: Vec<
    Finding,
>)
    ensures
        finding_views(r@) == finding_views(findings@).filter(touches(changed@)),
{
    let ghost all = finding_views(findings@);
    let ghost p = touches(changed@);
    let mut r: Vec<Finding> = Vec::new();
    let mut i: usize = 0;
    proof {
        assert(all.take(0) =~= Seq::<FindingView>::empty());
        reveal(Seq::filter);
        assert(finding_views(r@) =~= all.take(0).filter(p));
    }
    while i < findings.len()
        invariant
            i <= findings@.len(),
            all == finding_views(findings@),
            p == touches(changed@),
            finding_views(r@) == all.take(i as int).filter(p),
        decreases findings@.len() - i,
    {
        proof {
            assert(all[i as int] == findings@[i as int]@);
            assert(all.take(i + 1) =~= all.take(i as int).push(all[i as int]));
            all.take(i as int).lemma_filter_push(all[i as int], p);
        }
        if is_touched(&findings[i], changed) {
            let copy = findings[i].clone();
            proof {
                lemma_finding_views_push(r@, copy);
            }
            r.push(copy);
        }
        i = i + 1;
    }
    assert(all.take(i as int) =~= all);
    r
}

// ---------------------------------------------------------------------------
// Check runs
// ---------------------------------------------------------------------------

/// The policy result that a check run shows.
pub enum CheckRunPolicy<'a> {
    Evaluated(&'a PrPolicyEvaluation),
    NotEvaluated { findings: &'a [Finding], policy: &'a PrPolicyNotEvaluated },
}

#[derive(Debug, PartialEq, Eq)]
pub struct CheckRunAnnotation {
    pub path: String,
    pub start_line: usize,
    pub end_line: usize,
    pub annotation_level: &'static str,
    pub title: String,
    pub message: String,
    pub raw_details: String,
}

pub struct AnnotationView {
    pub path: Seq<char>,
    pub start_line: usize,
    pub end_line: usize,
    pub annotation_level: Seq<char>,
    pub title: Seq<char>,
    pub message: Seq<char>,
    pub raw_details: Seq<char>,
}

impl View for CheckRunAnnotation {
    type V = AnnotationView;

    open spec fn view(&self) -> AnnotationView {
        AnnotationView {
            path: self.path@,
            start_line: self.start_line,
            end_line: self.end_line,
            annotation_level: self.annotation_level@,
            title: self.title@,
            message: self.message@,
            raw_details: self.raw_details@,
        }
    }
}

pub open spec fn annotation_views(v: Seq<CheckRunAnnotation>) -> Seq<AnnotationView> {
    v.map_values(|a: CheckRunAnnotation| a@)
}

/// A completed check run.
#[derive(Debug, PartialEq, Eq)]
pub struct CheckRunPayload {
    pub name: &'static str,
    pub head_sha: String,
    pub status: &'static str,
    pub conclusion: &'static str,
    pub title: &'static str,
    pub summary: String,
    pub annotations: Vec<CheckRunAnnotation>,
}

pub open spec fn level_of(severity: Severity) -> Seq<char> {
    match severity {
        Severity::Low => "notice"@,
        Severity::Medium => "warning"@,
        Severity::High => "failure"@,
        Severity::Critical => "failure"@,
    }
}

/// How strongly an annotation of the given severity is shown.
pub fn annotation_level(severity: Severity) -> (r: &'static str)
    ensures
        r@ == level_of(severity),
{
    match severity {
        Severity::Low => "notice",
        Severity::Medium => "warning",
        Severity::High | Severity::Critical => "failure",
    }
}

/// At most `max` characters of `value`; dots stand for what is left out.
pub open spec fn truncated(value: Seq<char>, max: nat) -> Seq<char> {
    if value.len() <= max {
        value
    } else if max <= 3 {
        Seq::new(max, |i: int| '.')
    } else {
        value.take(max - 3) + "..."@
    }
}

/// At most `max_chars` characters of `value`; dots stand for what is left out.
pub fn truncate(value: &str, max_chars: usize) -> (r: String)
    ensures
        r@ == truncated(value@, max_chars as nat),
        r@.len() <= max_chars,
{
    let c = chars_of(value);
    proof {
        reveal_strlit("...");
    }
    if c.len() <= max_chars {
        return owned(value);
    }
    if max_chars <= 3 {
        let mut r: String = String::new();
        let mut i: usize = 0;
        while i < max_chars
            invariant
                i <= max_chars,
                r@ =~= Seq::new(i as nat, |k: int| '.'),
            decreases max_chars - i,
        {
            r.push('.');
            i = i + 1;
        }
        return r;
    }
    let mut r: String = string_between(&c, 0, max_chars - 3);
    assert(c@.subrange(0, max_chars - 3) =~= c@.take(max_chars - 3));
    r.append("...");
    r
}

/// The annotation that shows a finding.
pub open spec fn annotation_of(f: FindingView) -> AnnotationView {
    AnnotationView {
        path: f.file,
        start_line: f.line,
        end_line: if f.end_line > f.line {
            f.end_line
        } else {
            f.line
        },
        annotation_level: level_of(f.severity),
        title: truncated(f.rule_id + " ("@ + f.severity.word() + ")"@, 255),
        message: truncated(f.description, 64_000),
        raw_details: truncated(f.snippet, 64_000),
    }
}

/// At most the first `max` elements.
pub open spec fn at_most_first<T>(s: Seq<T>, max: nat) -> Seq<T> {
    if s.len() > max {
        s.take(max as int)
    } else {
        s
    }
}

/// The annotations that show findings: the first ones that have a line.
pub open spec fn annotations_of(findings: Seq<FindingView>) -> Seq<AnnotationView> {
    at_most_first(
        findings.filter(|f: FindingView| f.line > 0),
        MAX_ANNOTATIONS as nat,
    ).map_values(|f: FindingView| annotation_of(f))
}

fn annotation(finding: &Finding) -> (r: CheckRunAnnotation)
    ensures
        r@ == annotation_of(finding@),
{
    let end_line: usize = if finding.end_line > finding.line {
        finding.end_line
    } else {
        finding.line
    };
    let mut title: String = finding.rule_id.clone();
    title.append(" (");
    title.append(finding.severity.as_str());
    title.append(")");
    CheckRunAnnotation {
        path: finding.file.clone(),
        start_line: finding.line,
        end_line,
        annotation_level: annotation_level(finding.severity),
        title: truncate(title.as_str(), 255),
        message: truncate(finding.description.as_str(), 64_000),
        raw_details: truncate(finding.snippet.as_str(), 64_000),
    }
}

/// The annotations that show findings: the first ones that have a line.
pub fn check_run_annotations(findings: &[Finding]) -> (r: Vec<CheckRunAnnotation>)
    ensures
        annotation_views(r@) == annotations_of(finding_views(findings@)),
        r@.len() <= MAX_ANNOTATIONS,
{
    let ghost all = finding_views(findings@);
    let ghost p = |f: FindingView| f.line > 0;
    let ghost g = |f: FindingView| annotation_of(f);
    let ghost end = all.filter(p);
    let mut r: Vec<CheckRunAnnotation> = Vec::new();
    let mut i: usize = 0;
    proof {
        assert(all.take(0) =~= Seq::<FindingView>::empty());
        reveal(Seq::filter);
        assert(annotation_views(r@) =~= at_most_first(
            all.take(0).filter(p),
            MAX_ANNOTATIONS as nat,
        ).map_values(g));
    }
    while i < findings.len()
        invariant
            i <= findings@.len(),
            all == finding_views(findings@),
            p == (|f: FindingView| f.line > 0),
            g == (|f: FindingView| annotation_of(f)),
            annotation_views(r@) == at_most_first(
                all.take(i as int).filter(p),
                MAX_ANNOTATIONS as nat,
            ).map_values(g),
            r@.len() <= MAX_ANNOTATIONS,
        decreases findings@.len() - i,
    {
        let ghost kept = all.take(i as int).filter(p);
        let ghost next = all.take(i + 1).filter(p);
        proof {
            assert(all[i as int] == findings@[i as int]@);
            assert(all.take(i + 1) =~= all.take(i as int).push(all[i as int]));
            all.take(i as int).lemma_filter_push(all[i as int], p);
            assert(annotation_views(r@).len() == r@.len());
        }
        if findings[i].line > 0 && r.len() < MAX_ANNOTATIONS {
            let a = annotation(&findings[i]);
            proof {
                assert(annotation_views(r@.push(a)) =~= annotation_views(r@).push(a@));
                assert(at_most_first(next, MAX_ANNOTATIONS as nat).map_values(g)
                    =~= kept.map_values(g).push(a@));
            }
            r.push(a);
        } else {
            proof {
                assert(at_most_first(next, MAX_ANNOTATIONS as nat) =~= at_most_first(
                    kept,
                    MAX_ANNOTATIONS as nat,
                ));
            }
        }
        i = i + 1;
    }
    assert(all.take(i as int) =~= all);
    r
}

/// The finding is about a dependency and stands in no source line.
pub open spec fn summary_only(f: FindingView) -> bool {
    f.dep_name is Some
}

/// Whether the finding is shown in the summary alone.
pub fn is_summary_only_finding(finding: &Finding) -> (r: bool)
    ensures
        r == summary_only(finding@),
{
    finding.dep_name.is_some()
}

/// Some text, or nothing.
pub open spec fn wrapped(before: Seq<char>, o: Option<Seq<char>>, after: Seq<char>) -> Seq<char> {
    match o {
        Some(s) => before + s + after,
        None => Seq::empty(),
    }
}

fn append_wrapped(s: &mut String, before: &str, o: &Option<String>, after: &str)
    ensures
        final(s)@ == old(s)@ + wrapped(before@, opt_text(*o), after@),
{
    let ghost start = s@;
    match o {
        Some(t) => {
            s.append(before);
            s.append(t.as_str());
            s.append(after);
            assert(s@ =~= start + (before@ + t@ + after@));
        },
        None => {
            assert(s@ =~= start + Seq::<char>::empty());
        },
    }
}

/// How a dependency finding is named.
pub open spec fn package_label(f: FindingView) -> Seq<char> {
    match f.dep_name {
        Some(name) => match f.dep_version {
            Some(version) => "`"@ + name + "@"@ + version + "`"@,
            None => "`"@ + name + "`"@,
        },
        None => "`"@ + f.rule_id + "`"@,
    }
}

/// One line on a dependency finding.
pub open spec fn dependency_line(f: FindingView) -> Seq<char> {
    package_label(f) + " in `"@ + display_path(f.file) + "`"@ + wrapped(
        " affected by `"@,
        f.dep_vulnerability_id,
        "`"@,
    ) + wrapped("; upgrade to `"@, f.dep_fixed_version, "` or later"@)
}

/// One line on a dependency finding.
pub fn dependency_summary_line(finding: &Finding) -> (r: String)
    ensures
        r@ == dependency_line(finding@),
{
    let mut s: String = owned("`");
    match &finding.dep_name {
        Some(name) => {
            s.append(name.as_str());
            if let Some(version) = &finding.dep_version {
                s.append("@");
                s.append(version.as_str());
            }
        },
        None => {
            s.append(finding.rule_id.as_str());
        },
    }
    s.append("`");
    assert(s@ =~= package_label(finding@));
    s.append(" in `");
    let path = percent_encoded_display_path(finding.file.as_str());
    s.append(path.as_str());
    s.append("`");
    append_wrapped(&mut s, " affected by `", &finding.dep_vulnerability_id, "`");
    append_wrapped(&mut s, "; upgrade to `", &finding.dep_fixed_version, "` or later");
    s
}

/// How many findings have the given severity.
pub open spec fn severity_count(findings: Seq<FindingView>, severity: Severity) -> nat {
    findings.filter(|f: FindingView| f.severity == severity).len()
}

fn count_severity(findings: &[Finding], severity: Severity) -> (n: usize)
    ensures
        n == severity_count(finding_views(findings@), severity),
{
    let ghost all = finding_views(findings@);
    let ghost p = |f: FindingView| f.severity == severity;
    let mut n: usize = 0;
    let mut i: usize = 0;
    while i < findings.len()
        invariant
            i <= findings@.len(),
            n <= i,
            all == finding_views(findings@),
            p == (|f: FindingView| f.severity == severity),
            n == all.take(i as int).filter(p).len(),
        decreases findings@.len() - i,
    {
        proof {
            assert(all[i as int] == findings@[i as int]@);
            assert(all.take(i + 1) =~= all.take(i as int).push(all[i as int]));
            all.take(i as int).lemma_filter_push(all[i as int], p);
        }
        if findings[i].severity == severity {
            n = n + 1;
        }
        i = i + 1;
    }
    assert(all.take(i as int) =~= all);
    n
}

/// How many findings could be shown as annotations.
pub open spec fn annotatable(findings: Seq<FindingView>) -> nat {
    findings.filter(|f: FindingView| !summary_only(f) && f.line > 0).len()
}

fn count_annotatable(findings: &[Finding]) -> (n: usize)
    ensures
        n == annotatable(finding_views(findings@)),
{
    let ghost all = finding_views(findings@);
    let ghost p = |f: FindingView| !summary_only(f) && f.line > 0;
    let mut n: usize = 0;
    let mut i: usize = 0;
    while i < findings.len()
        invariant
            i <= findings@.len(),
            n <= i,
            all == finding_views(findings@),
            p == (|f: FindingView| !summary_only(f) && f.line > 0),
            n == all.take(i as int).filter(p).len(),
        decreases findings@.len() - i,
    {
        proof {
            assert(all[i as int] == findings@[i as int]@);
            assert(all.take(i + 1) =~= all.take(i as int).push(all[i as int]));
            all.take(i as int).lemma_filter_push(all[i as int], p);
        }
        if !is_summary_only_finding(&findings[i]) && findings[i].line > 0 {
            n = n + 1;
        }
        i = i + 1;
    }
    assert(all.take(i as int) =~= all);
    n
}

/// The policy and its decision in one sentence.
pub open spec fn policy_sentence(policy: PrPolicyReport) -> Seq<char> {
    "PR security policy "@ + policy.version.word() + " (scope "@ + policy.scope.word()
        + ", report >= "@ + policy.reporting_threshold.word() + ", block >= "@
        + policy.blocking_threshold.word() + "): "@ + policy.decision.word() + " ("@ + decimal(
        policy.included_findings as nat,
    ) + " included, "@ + decimal(policy.blocking_findings as nat) + " blocking)."@
}

fn policy_summary(policy: &PrPolicyReport) -> (r: String)
    ensures
        r@ == policy_sentence(*policy),
{
    let included = decimal_string(policy.included_findings as u64);
    let blocking = decimal_string(policy.blocking_findings as u64);
    let mut s: String = owned("PR security policy ");
    s.append(policy.version.as_str());
    s.append(" (scope ");
    s.append(policy.scope.as_str());
    s.append(", report >= ");
    s.append(policy.reporting_threshold.as_str());
    s.append(", block >= ");
    s.append(policy.blocking_threshold.as_str());
    s.append("): ");
    s.append(policy.decision.as_str());
    s.append(" (");
    s.append(included.as_str());
    s.append(" included, ");
    s.append(blocking.as_str());
    s.append(" blocking).");
    s
}

/// How many findings there are of each severity, worst first.
pub open spec fn severity_sentence(findings: Seq<FindingView>) -> Seq<char> {
    "foxguard found "@ + decimal(findings.len()) + " reportable issue(s): "@ + decimal(
        severity_count(findings, Severity::Critical),
    ) + " critical, "@ + decimal(severity_count(findings, Severity::High)) + " high, "@ + decimal(
        severity_count(findings, Severity::Medium),
    ) + " medium, "@ + decimal(severity_count(findings, Severity::Low)) + " low."@
}

/// A bullet for each of the first `n` dependency findings.
pub open spec fn dependency_bullets(findings: Seq<FindingView>, n: int) -> Seq<char>
    decreases n,
{
    if n <= 0 {
        Seq::empty()
    } else {
        dependency_bullets(findings, n - 1) + "\n- "@ + dependency_line(findings[n - 1])
    }
}

/// What is said of dependency findings.
pub open spec fn dependency_section(findings: Seq<FindingView>) -> Seq<char> {
    if findings.len() == 0 {
        Seq::empty()
    } else {
        " "@ + decimal(findings.len())
            + " dependency finding(s) are summarized below without check annotations."@
            + "\n\nDependency findings (summary only):"@ + dependency_bullets(
            findings,
            if findings.len() > 10 {
                10
            } else {
                findings.len() as int
            },
        ) + if findings.len() > 10 {
            "\n- ... "@ + decimal((findings.len() - 10) as nat) + " more dependency finding(s)"@
        } else {
            Seq::empty()
        }
    }
}

/// What a check run says of the reported findings.
pub open spec fn summary_text(
    findings: Seq<FindingView>,
    annotation_count: nat,
    policy: PrPolicyReport,
) -> Seq<char> {
    if findings.len() == 0 {
        "foxguard scan completed with no reportable findings.\n\n"@ + policy_sentence(policy)
    } else {
        severity_sentence(findings) + if annotation_count < annotatable(findings) {
            " Showing the first "@ + decimal(annotation_count) + " as check annotations."@
        } else {
            Seq::empty()
        } + dependency_section(findings.filter(|f: FindingView| summary_only(f))) + "\n\n"@
            + policy_sentence(policy)
    }
}

fn append_severities(s: &mut String, findings: &[Finding])
    ensures
        final(s)@ == old(s)@ + severity_sentence(finding_views(findings@)),
{
    let ghost start = s@;
    let total = decimal_string(findings.len() as u64);
    let critical = decimal_string(count_severity(findings, Severity::Critical) as u64);
    let high = decimal_string(count_severity(findings, Severity::High) as u64);
    let medium = decimal_string(count_severity(findings, Severity::Medium) as u64);
    let low = decimal_string(count_severity(findings, Severity::Low) as u64);
    s.append("foxguard found ");
    s.append(total.as_str());
    s.append(" reportable issue(s): ");
    s.append(critical.as_str());
    s.append(" critical, ");
    s.append(high.as_str());
    s.append(" high, ");
    s.append(medium.as_str());
    s.append(" medium, ");
    s.append(low.as_str());
    s.append(" low.");
    assert(s@ =~= start + severity_sentence(finding_views(findings@)));
}

fn summary_only_findings(findings: &[Finding]) -> (r: Vec<Finding>)
    ensures
        finding_views(r@) == finding_views(findings@).filter(|f: FindingView| summary_only(f)),
{
    let ghost all = finding_views(findings@);
    let ghost p = |f: FindingView| summary_only(f);
    let mut r: Vec<Finding> = Vec::new();
    let mut i: usize = 0;
    proof {
        assert(all.take(0) =~= Seq::<FindingView>::empty());
        reveal(Seq::filter);
        assert(finding_views(r@) =~= all.take(0).filter(p));
    }
    while i < findings.len()
        invariant
            i <= findings@.len(),
            all == finding_views(findings@),
            p == (|f: FindingView| summary_only(f)),
            finding_views(r@) == all.take(i as int).filter(p),
        decreases findings@.len() - i,
    {
        proof {
            assert(all[i as int] == findings@[i as int]@);
            assert(all.take(i + 1) =~= all.take(i as int).push(all[i as int]));
            all.take(i as int).lemma_filter_push(all[i as int], p);
        }
        if is_summary_only_finding(&findings[i]) {
            let copy = findings[i].clone();
            proof {
                lemma_finding_views_push(r@, copy);
            }
            r.push(copy);
        }
        i = i + 1;
    }
    assert(all.take(i as int) =~= all);
    r
}

fn append_dependencies(s: &mut String, findings: &Vec<Finding>)
    ensures
        final(s)@ == old(s)@ + dependency_section(finding_views(findings@)),
{
    let ghost start = s@;
    let ghost all = finding_views(findings@);
    if findings.len() == 0 {
        assert(s@ =~= start + Seq::<char>::empty());
        return;
    }
    let total = decimal_string(findings.len() as u64);
    s.append(" ");
    s.append(total.as_str());
    s.append(" dependency finding(s) are summarized below without check annotations.");
    s.append("\n\nDependency findings (summary only):");
    let ghost head = s@;
    let shown: usize = if findings.len() > 10 {
        10
    } else {
        findings.len()
    };
    let mut i: usize = 0;
    assert(s@ =~= head + dependency_bullets(all, 0));
    while i < shown
        invariant
            i <= shown <= findings@.len(),
            all == finding_views(findings@),
            s@ == head + dependency_bullets(all, i as int),
        decreases shown - i,
    {
        let line = dependency_summary_line(&findings[i]);
        assert(all[i as int] == findings@[i as int]@);
        s.append("\n- ");
        s.append(line.as_str());
        i = i + 1;
        assert(s@ =~= head + dependency_bullets(all, i as int));
    }
    let ghost listed = s@;
    if findings.len() > 10 {
        let more = decimal_string((findings.len() - 10) as u64);
        s.append("\n- ... ");
        s.append(more.as_str());
        s.append(" more dependency finding(s)");
    }
    assert(s@ =~= start + dependency_section(all));
}

/// What a check run says of the reported findings.
pub fn check_run_summary(
    findings: &[Finding],
    annotation_count: usize,
    policy: &PrPolicyReport,
) -> (r: String)
    ensures
        r@ == summary_text(finding_views(findings@), annotation_count as nat, *policy),
{
    let sentence = policy_summary(policy);
    if findings.len() == 0 {
        let mut s: String = owned("foxguard scan completed with no reportable findings.\n\n");
        s.append(sentence.as_str());
        return s;
    }
    let ghost all = finding_views(findings@);
    let mut s: String = String::new();
    append_severities(&mut s, findings);
    assert(s@ =~= severity_sentence(all));
    if annotation_count < count_annotatable(findings) {
        let ghost before = s@;
        let shown = decimal_string(annotation_count as u64);
        s.append(" Showing the first ");
        s.append(shown.as_str());
        s.append(" as check annotations.");
        assert(s@ =~= before + (" Showing the first "@ + decimal(annotation_count as nat)
            + " as check annotations."@));
    } else {
        assert(s@ =~= s@ + Seq::<char>::empty());
    }
    let dependencies = summary_only_findings(findings);
    append_dependencies(&mut s, &dependencies);
    s.append("\n\n");
    s.append(sentence.as_str());
    s
}

/// What a check run says of a scan whose policy was not evaluated.
pub open spec fn not_evaluated_text(
    findings: nat,
    annotation_count: nat,
    policy: PrPolicyNotEvaluated,
) -> Seq<char> {
    "foxguard found "@ + decimal(findings) + " issue(s) in a partial scan. "@ + policy.text()
        + if annotation_count > 0 {
        " Showing "@ + decimal(annotation_count)
            + " partial-scan finding(s) as check annotations."@
    } else {
        Seq::empty()
    } + "\n\nThis neutral check is not a v1 repository-scope policy decision."@
}

/// What a check run says of a scan whose policy was not evaluated.
pub fn check_run_not_evaluated_summary(
    findings: &[Finding],
    annotation_count: usize,
    policy: &PrPolicyNotEvaluated,
) -> (r: String)
    ensures
        r@ == not_evaluated_text(findings@.len(), annotation_count as nat, *policy),
{
    let total = decimal_string(findings.len() as u64);
    let message = policy.message();
    let mut s: String = owned("foxguard found ");
    s.append(total.as_str());
    s.append(" issue(s) in a partial scan. ");
    s.append(message.as_str());
    if annotation_count > 0 {
        let ghost before = s@;
        let shown = decimal_string(annotation_count as u64);
        s.append(" Showing ");
        s.append(shown.as_str());
        s.append(" partial-scan finding(s) as check annotations.");
        assert(s@ =~= before + (" Showing "@ + decimal(annotation_count as nat)
            + " partial-scan finding(s) as check annotations."@));
    } else {
        assert(s@ =~= s@ + Seq::<char>::empty());
    }
    s.append("\n\nThis neutral check is not a v1 repository-scope policy decision.");
    s
}

pub open spec fn title_of(decision: PrPolicyDecision) -> Seq<char> {
    match decision {
        PrPolicyDecision::Pass => "foxguard policy passed"@,
        PrPolicyDecision::Neutral => "foxguard policy reported issues"@,
        PrPolicyDecision::Fail => "foxguard policy failed"@,
    }
}

/// The title of a check run that shows an evaluated policy.
pub fn check_run_title(evaluation: &PrPolicyEvaluation) -> (r: &'static str)
    ensures
        r@ == title_of(evaluation.report.decision),
{
    match evaluation.report().decision {
        PrPolicyDecision::Pass => "foxguard policy passed",
        PrPolicyDecision::Neutral => "foxguard policy reported issues",
        PrPolicyDecision::Fail => "foxguard policy failed",
    }
}

/// The findings that may become annotations: those on changed lines, where these are known, but
/// none about a dependency.
pub open spec fn annotation_findings(
    findings: Seq<FindingView>,
    changed: Option<Seq<ChangedFile>>,
) -> Seq<FindingView> {
    let scoped = match changed {
        Some(c) => findings.filter(touches(c)),
        None => findings,
    };
    scoped.filter(|f: FindingView| !summary_only(f))
}

fn without_summary_only(findings: Vec<Finding>) -> (r: Vec<Finding>)
    ensures
        finding_views(r@) == finding_views(findings@).filter(|f: FindingView| !summary_only(f)),
{
    let ghost all = finding_views(findings@);
    let ghost start = findings@;
    let ghost p = |f: FindingView| !summary_only(f);
    let mut r: Vec<Finding> = Vec::new();
    proof {
        assert(all.take(0) =~= Seq::<FindingView>::empty());
        reveal(Seq::filter);
        assert(finding_views(r@) =~= all.take(0).filter(p));
    }
    for finding in it: findings
        invariant
            it.seq() == start,
            all == finding_views(start),
            p == (|f: FindingView| !summary_only(f)),
            finding_views(r@) == all.take(it.index() as int).filter(p),
    {
        proof {
            let i = it.index() as int;
            assert(all[i] == start[i]@);
            assert(all.take(i + 1) =~= all.take(i).push(all[i]));
            all.take(i).lemma_filter_push(all[i], p);
            lemma_finding_views_push(r@, finding);
        }
        if !is_summary_only_finding(&finding) {
            r.push(finding);
        }
    }
    assert(all.take(all.len() as int) =~= all);
    r
}

/// The check run that shows a policy result, and how many annotations it carries.
pub fn check_run_payload(
    head_sha: &str,
    policy: CheckRunPolicy<'_>,
    changed_lines: Option<&Vec<ChangedFile>>,
) -> (r: (CheckRunPayload, usize))
    ensures
        ({
            let changed = match changed_lines {
                Some(c) => Some(c@),
                None => None,
            };
            let findings = match policy {
                CheckRunPolicy::Evaluated(e) => e.findings@,
                CheckRunPolicy::NotEvaluated { findings, policy: _ } => findings@,
            };
            let shown = annotations_of(annotation_findings(finding_views(findings), changed));
            &&& annotation_views(r.0.annotations@) == shown
            &&& r.1 == shown.len()
            &&& r.0.name@ == "foxguard"@
            &&& r.0.head_sha@ == head_sha@
            &&& r.0.status@ == "completed"@
            &&& match policy {
                CheckRunPolicy::Evaluated(e) => {
                    &&& r.0.conclusion@ == e.report.decision.conclusion()
                    &&& r.0.title@ == title_of(e.report.decision)
                    &&& r.0.summary@ == summary_text(
                        finding_views(findings),
                        shown.len(),
                        e.report,
                    )
                },
                CheckRunPolicy::NotEvaluated { findings: f, policy: p } => {
                    &&& r.0.conclusion@ == "neutral"@
                    &&& r.0.title@ == "foxguard policy not evaluated"@
                    &&& r.0.summary@ == not_evaluated_text(findings.len(), shown.len(), *p)
                },
            }
        }),
{
    let findings: &[Finding] = match &policy {
        CheckRunPolicy::Evaluated(evaluation) => evaluation.findings.as_slice(),
        CheckRunPolicy::NotEvaluated { findings, policy: _ } => findings,
    };
    let scoped: Vec<Finding> = match changed_lines {
        Some(lines) => filter_findings_to_changed_lines(findings, lines),
        None => copy_findings(findings),
    };
    let kept = without_summary_only(scoped);
    let annotations = check_run_annotations(kept.as_slice());
    let annotation_count: usize = annotations.len();
    proof {
        assert(annotation_views(annotations@).len() == annotations@.len());
    }
    let (conclusion, title, summary): (&'static str, &'static str, String) = match &policy {
        CheckRunPolicy::Evaluated(evaluation) => (
            evaluation.report().decision.github_check_conclusion(),
            check_run_title(evaluation),
            check_run_summary(findings, annotation_count, evaluation.report()),
        ),
        CheckRunPolicy::NotEvaluated { findings: _, policy: p } => (
            "neutral",
            "foxguard policy not evaluated",
            check_run_not_evaluated_summary(findings, annotation_count, p),
        ),
    };
    (
        CheckRunPayload {
            name: "foxguard",
            head_sha: owned(head_sha),
            status: "completed",
            conclusion,
            title,
            summary,
            annotations,
        },
        annotation_count,
    )
}

// ---------------------------------------------------------------------------
// The review message
// ---------------------------------------------------------------------------

pub open spec fn label_of(severity: Severity) -> Seq<char> {
    match severity {
        Severity::Low => "LOW"@,
        Severity::Medium => "MEDIUM"@,
        Severity::High => "HIGH"@,
        Severity::Critical => "CRITICAL"@,
    }
}

/// The severity in capitals.
pub fn severity_label(severity: Severity) -> (r: &'static str)
    ensures
        r@ == label_of(severity),
{
    match severity {
        Severity::Low => "LOW",
        Severity::Medium => "MEDIUM",
        Severity::High => "HIGH",
        Severity::Critical => "CRITICAL",
    }
}

/// The lines of a finding behind its path.
pub open spec fn line_range(line: usize, end_line: usize) -> Seq<char> {
    if line == 0 {
        Seq::empty()
    } else if end_line > line {
        ":"@ + decimal(line as nat) + "-"@ + decimal(end_line as nat)
    } else {
        ":"@ + decimal(line as nat)
    }
}

/// Where a finding is, as a link where its path allows one.
pub open spec fn location_text(f: FindingView, source: SourceRevision) -> Seq<char> {
    let label = display_path(f.file) + line_range(f.line, f.end_line);
    match source.link(f.file, f.line, f.end_line) {
        Some(url) => "[`"@ + label + "`](<"@ + url + ">)"@,
        None => "`"@ + label + "`"@,
    }
}

/// Where a finding is, as a link where its path allows one.
pub fn format_review_location(finding: &Finding, source_revision: &SourceRevision) -> (r: String)
    ensures
        r@ == location_text(finding@, *source_revision),
{
    let mut label: String = percent_encoded_display_path(finding.file.as_str());
    if finding.line > 0 {
        let ghost before = label@;
        let n = decimal_string(finding.line as u64);
        label.append(":");
        label.append(n.as_str());
        if finding.end_line > finding.line {
            let m = decimal_string(finding.end_line as u64);
            label.append("-");
            label.append(m.as_str());
        }
        assert(label@ =~= before + line_range(finding.line, finding.end_line));
    } else {
        assert(label@ =~= label@ + Seq::<char>::empty());
    }
    match source_revision.permalink(finding.file.as_str(), finding.line, finding.end_line) {
        Some(url) => {
            let mut s: String = owned("[`");
            s.append(label.as_str());
            s.append("`](<");
            s.append(url.as_str());
            s.append(">)");
            s
        },
        None => {
            let mut s: String = owned("`");
            s.append(label.as_str());
            s.append("`");
            s
        },
    }
}

/// One finding in the review message.
pub open spec fn finding_entry(f: FindingView, source: SourceRevision) -> Seq<char> {
    "\n- **"@ + label_of(f.severity) + "** `"@ + f.rule_id + "`"@ + wrapped(" ("@, f.cwe, ")"@)
        + wrapped(" ("@, f.dep_vulnerability_id, ")"@) + " at "@ + location_text(f, source)
        + " — "@ + f.description + wrapped("\n  - **Fix:** "@, f.fix_suggestion, ""@)
}

/// One finding in the review message.
pub fn format_review_finding(finding: &Finding, source_revision: &SourceRevision) -> (r: String)
    ensures
        r@ == finding_entry(finding@, *source_revision),
{
    let location = format_review_location(finding, source_revision);
    let mut s: String = owned("\n- **");
    s.append(severity_label(finding.severity));
    s.append("** `");
    s.append(finding.rule_id.as_str());
    s.append("`");
    append_wrapped(&mut s, " (", &finding.cwe, ")");
    append_wrapped(&mut s, " (", &finding.dep_vulnerability_id, ")");
    s.append(" at ");
    s.append(location.as_str());
    s.append(" — ");
    s.append(finding.description.as_str());
    append_wrapped(&mut s, "\n  - **Fix:** ", &finding.fix_suggestion, "");
    s
}

/// The entries of the first `n` findings.
pub open spec fn finding_entries(
    findings: Seq<FindingView>,
    source: SourceRevision,
    n: int,
) -> Seq<char>
    decreases n,
{
    if n <= 0 {
        Seq::empty()
    } else {
        finding_entries(findings, source, n - 1) + finding_entry(findings[n - 1], source)
    }
}

/// The one message that sums a scan up.
pub open spec fn review_text(findings: Seq<FindingView>, source: SourceRevision) -> Seq<char> {
    if findings.len() == 0 {
        COMMENT_MARKER@ + "\n\n**foxguard** found no issues in this PR revision."@
    } else {
        COMMENT_MARKER@ + "\n\n**foxguard** found "@ + decimal(findings.len())
            + " issue(s) in this PR"@ + "\n\n**By severity**\n- `CRITICAL`: "@ + decimal(
            severity_count(findings, Severity::Critical),
        ) + "\n- `HIGH`: "@ + decimal(severity_count(findings, Severity::High))
            + "\n- `MEDIUM`: "@ + decimal(severity_count(findings, Severity::Medium))
            + "\n- `LOW`: "@ + decimal(severity_count(findings, Severity::Low))
            + "\n\n**Findings**"@ + finding_entries(findings, source, findings.len() as int)
    }
}

/// The one message that sums a scan up.
pub fn review_summary_body(findings: &[Finding], source_revision: &SourceRevision) -> (r: String)
    ensures
        r@ == review_text(finding_views(findings@), *source_revision),
{
    let mut s: String = owned(COMMENT_MARKER);
    if findings.len() == 0 {
        s.append("\n\n**foxguard** found no issues in this PR revision.");
        return s;
    }
    let ghost all = finding_views(findings@);
    let total = decimal_string(findings.len() as u64);
    let critical = decimal_string(count_severity(findings, Severity::Critical) as u64);
    let high = decimal_string(count_severity(findings, Severity::High) as u64);
    let medium = decimal_string(count_severity(findings, Severity::Medium) as u64);
    let low = decimal_string(count_severity(findings, Severity::Low) as u64);
    s.append("\n\n**foxguard** found ");
    s.append(total.as_str());
    s.append(" issue(s) in this PR");
    s.append("\n\n**By severity**\n- `CRITICAL`: ");
    s.append(critical.as_str());
    s.append("\n- `HIGH`: ");
    s.append(high.as_str());
    s.append("\n- `MEDIUM`: ");
    s.append(medium.as_str());
    s.append("\n- `LOW`: ");
    s.append(low.as_str());
    s.append("\n\n**Findings**");
    let ghost head = s@;
    let mut i: usize = 0;
    assert(s@ =~= head + finding_entries(all, *source_revision, 0));
    while i < findings.len()
        invariant
            i <= findings@.len(),
            all == finding_views(findings@),
            s@ == head + finding_entries(all, *source_revision, i as int),
        decreases findings@.len() - i,
    {
        let entry = format_review_finding(&findings[i], source_revision);
        assert(all[i as int] == findings@[i as int]@);
        s.append(entry.as_str());
        i = i + 1;
        assert(s@ =~= head + finding_entries(all, *source_revision, i as int));
    }
    s
}

// ---------------------------------------------------------------------------
// Laws
// ---------------------------------------------------------------------------

/// The character may stand in the display form of a path.
pub open spec fn display_char(c: char) -> bool {
    is_ascii_alnum(c) || c == '-' || c == '.' || c == '_' || c == '~' || c == '%' || c == '/'
}

pub open spec fn all_display(s: Seq<char>) -> bool {
    forall|i: int| 0 <= i < s.len() ==> display_char(#[trigger] s[i])
}

proof fn lemma_percent_encoded_display(bytes: Seq<u8>)
    ensures
        all_display(percent_encoded(bytes)),
    decreases bytes.len(),
{
    if bytes.len() > 0 {
        lemma_percent_encoded_display(bytes.drop_last());
    }
}

proof fn lemma_joined_display(pieces: Seq<Seq<char>>)
    requires
        forall|i: int| 0 <= i < pieces.len() ==> all_display(#[trigger] pieces[i]),
    ensures
        all_display(joined(pieces, "/"@)),
    decreases pieces.len(),
{
    reveal_strlit("/");
    if pieces.len() > 1 {
        lemma_joined_display(pieces.drop_last());
        let a = joined(pieces.drop_last(), "/"@);
        let b = pieces.last();
        assert(all_display(pieces[pieces.len() - 1]));
        let s = a + "/"@ + b;
        assert forall|i: int| 0 <= i < s.len() implies display_char(#[trigger] s[i]) by {
            if i < a.len() {
                assert(s[i] == a[i]);
            } else if i == a.len() {
            } else {
                assert(s[i] == b[i - a.len() - 1]);
            }
        }
    } else if pieces.len() == 1 {
        assert(all_display(pieces[0]));
    }
}

/// Whatever a path holds, its display form has only letters, digits and `-._~%/`: no markup and no
/// line break gets through it.
pub proof fn display_paths_hold_no_markup(path: Seq<char>)
    ensures
        forall|i: int| 0 <= i < display_path(path).len() ==> display_char(
            #[trigger] display_path(path)[i],
        ),
{
    let pieces = encoded_segments(split_text(path, '/'));
    assert forall|i: int| 0 <= i < pieces.len() implies all_display(#[trigger] pieces[i]) by {
        lemma_percent_encoded_display(encode_utf8(split_text(path, '/')[i]));
    }
    lemma_joined_display(pieces);
}

/// A path that leaves the repository, or names it oddly, is never linked.
pub proof fn odd_paths_are_not_linked(
    source: SourceRevision,
    f: FindingView,
    i: int,
)
    requires
        0 <= i < split_text(f.file, '/').len(),
        split_text(f.file, '/')[i].len() == 0 || split_text(f.file, '/')[i] == "."@ || split_text(
            f.file,
            '/',
        )[i] == ".."@,
    ensures
        source.link(f.file, f.line, f.end_line) is None,
        location_text(f, source) == "`"@ + (display_path(f.file) + line_range(f.line, f.end_line))
            + "`"@,
{
}

/// However many findings there are, a check run carries at most fifty annotations, each of them
/// on a line and none about a dependency.
pub proof fn annotations_stay_within_limits(
    findings: Seq<FindingView>,
    changed: Option<Seq<ChangedFile>>,
)
    ensures
        annotations_of(annotation_findings(findings, changed)).len() <= 50,
        forall|i: int|
            0 <= i < annotations_of(annotation_findings(findings, changed)).len() ==> (
            #[trigger] annotations_of(annotation_findings(findings, changed))[i]).start_line > 0,
        forall|i: int|
            0 <= i < annotations_of(annotation_findings(findings, changed)).len() ==> (
            #[trigger] annotations_of(annotation_findings(findings, changed))[i]).start_line
                <= annotations_of(annotation_findings(findings, changed))[i].end_line,
{
    let eligible = annotation_findings(findings, changed);
    let p = |f: FindingView| f.line > 0;
    assert forall|i: int| 0 <= i < eligible.filter(p).len() implies p(
        #[trigger] eligible.filter(p)[i],
    ) by {
        eligible.lemma_filter_pred(p, i);
    }
    let shown = at_most_first(eligible.filter(p), MAX_ANNOTATIONS as nat);
    assert forall|i: int| 0 <= i < shown.len() implies (#[trigger] shown[i]).line > 0 by {
        assert(p(eligible.filter(p)[i]));
    }
}

} // verus!
