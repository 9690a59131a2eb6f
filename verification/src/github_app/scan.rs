//! Scanning the head of a pull request: where it is cloned from, how the scanner is called, and
//! what its result becomes.

use crate::document::{json_document, parse_json, Node};
use crate::finding::Finding;
use crate::github_app::dispatcher::GitHubPullRequest;
use crate::github_app::review::CheckRunPolicy;
use crate::paths::{
    components, join, joined, part_views, parts_text, parts_under, path_from, path_parts,
};
use crate::pr_policy::{
    at_or_above, blocking_count, decide, evaluate, merged, resolve, threshold_order_error, PrPolicyEvaluation,
    PrPolicyNotEvaluated, PrPolicyNotEvaluatedReason, PrSecurityPolicy, PrSecurityPolicyInput,
};
use crate::text::{
    contains, contains_text, decimal, decimal_string, eq_ignore_ascii_case, lemma_split_nonempty,
    lemma_texts_push, lines, lines_of, lower_text, occurs_at, opt_text, owned, parse_u64,
    parse_unsigned, parse_usize, replace, replace_from, replace_text, same, split, split_text,
    texts, to_ascii_lowercase, trim, trim_text, without_cr,
};
use crate::url::{parse_url, url_parts, ParsedUrl};
use base64::Engine;
use vstd::prelude::*;
use vstd::utf8::encode_utf8;

verus! {

/// The largest checkout that is scanned.
pub const MAX_REPO_BYTES: u64 = 1_000_000_000;

pub const DEFAULT_PR_QUEUE_CAPACITY: usize = 128;

pub const DEFAULT_PR_WORKERS: usize = 4;

pub const DEFAULT_SCAN_TIMEOUT_SECS: u64 = 60;

// ---------------------------------------------------------------------------
// Settings
// ---------------------------------------------------------------------------

/// The positive number that a setting gives, or the default.
pub open spec fn positive_setting(value: Option<Seq<char>>, max: nat, default: nat) -> nat {
    match value {
        Some(text) => match parse_unsigned(trim_text(text), max) {
            Some(n) => if n > 0 {
                n
            } else {
                default
            },
            None => default,
        },
        None => default,
    }
}

/// How many seconds a clone or a scan may take. What is missing, zero or no number gives the
/// default of a minute.
pub fn parse_scan_timeout(value: Option<String>) -> (r: u64)
    ensures
        r == positive_setting(
            opt_text(value),
            u64::MAX as nat,
            DEFAULT_SCAN_TIMEOUT_SECS as nat,
        ),
        r > 0,
{
    if let Some(text) = &value {
        let trimmed = trim(text.as_str());
        if let Some(n) = parse_u64(trimmed.as_str()) {
            if n > 0 {
                return n;
            }
        }
    }
    DEFAULT_SCAN_TIMEOUT_SECS
}

/// The positive number that a setting gives, or the default.
pub fn parse_positive_usize(value: Option<String>, default: usize) -> (r: usize)
    ensures
        r == positive_setting(opt_text(value), usize::MAX as nat, default as nat),
{
    if let Some(text) = &value {
        let trimmed = trim(text.as_str());
        if let Some(n) = parse_usize(trimmed.as_str()) {
            if n > 0 {
                return n;
            }
        }
    }
    default
}

// ---------------------------------------------------------------------------
// Cloning
// ---------------------------------------------------------------------------

/// Where a head is cloned from.
#[derive(Debug, PartialEq, Eq)]
pub struct CloneTarget {
    pub url: String,
    /// The configuration key under which the credentials are sent to this host alone.
    pub auth_header_key: String,
}

/// The host is GitHub's own or one of the comma-separated ones that are allowed.
pub open spec fn allowed_host(host: Seq<char>, allowed: Seq<char>) -> bool {
    ||| host == "github.com"@
    ||| exists|i: int|
        0 <= i < split_text(allowed, ',').len() && {
            let name = trim_text(#[trigger] split_text(allowed, ',')[i]);
            name.len() > 0 && lower_text(name) == lower_text(host)
        }
}

/// Whether repositories of the host may be cloned.
pub fn is_allowed_github_host(host: &str, allowed: &str) -> (r: bool)
    ensures
        r == allowed_host(host@, allowed@),
{
    if same(host, "github.com") {
        return true;
    }
    let names = split(allowed, ',');
    let ghost views = split_text(allowed@, ',');
    let mut i: usize = 0;
    while i < names.len()
        invariant
            i <= names@.len(),
            views == texts(names@),
            views == split_text(allowed@, ','),
            forall|k: int|
                0 <= k < i ==> {
                    let name = trim_text(#[trigger] views[k]);
                    !(name.len() > 0 && lower_text(name) == lower_text(host@))
                },
        decreases names@.len() - i,
    {
        assert(views[i as int] == names@[i as int]@);
        let name = trim(names[i].as_str());
        if !name.as_str().is_empty() && eq_ignore_ascii_case(name.as_str(), host) {
            return true;
        }
        i = i + 1;
    }
    false
}

/// Why an address is not cloned from.
pub open spec fn clone_objection(url: ParsedUrl, allowed: Seq<char>) -> Option<Seq<char>> {
    if url.scheme@ != "https"@ {
        Some("repository clone_url must use https"@)
    } else if url.username@ != ""@ || url.has_password {
        Some("repository clone_url must not contain credentials"@)
    } else {
        match url.host {
            None => Some("repository clone_url host is required"@),
            Some(host) => if allowed_host(host@, allowed) {
                None
            } else {
                Some("repository clone_url host "@ + host@ + " is not allowlisted"@)
            },
        }
    }
}

/// The outcome for an address that was read.
pub open spec fn clone_verdict(
    r: Result<CloneTarget, String>,
    url: Result<ParsedUrl, String>,
    allowed: Seq<char>,
) -> bool {
    match url {
        Err(error) => r matches Err(e) && e@ == "invalid repository clone_url: "@ + error@,
        Ok(url) => match clone_objection(url, allowed) {
            Some(text) => r matches Err(e) && e@ == text,
            None => r matches Ok(target) && target.url@ == url.text@ && target.auth_header_key@
                == "http.https://"@ + url.host.unwrap()@ + "/.extraheader"@,
        },
    }
}

/// Checks where a head is to be cloned from: over https, without credentials, from an allowed
/// host.
pub fn validate_clone_url(clone_url: &str, allowed_hosts: &str) -> (r: Result<CloneTarget, String>)
    ensures
        clone_verdict(r, url_parts(clone_url@), allowed_hosts@),
{
    clone_target(parse_url(clone_url), allowed_hosts)
}

/// Judges where a head is to be cloned from by the parts of its address.
pub fn clone_target(url: Result<ParsedUrl, String>, allowed_hosts: &str) -> (r: Result<
    CloneTarget,
    String,
>)
    ensures
        clone_verdict(r, url, allowed_hosts@),
{
    let url = match url {
        Ok(url) => url,
        Err(error) => {
            let mut e: String = owned("invalid repository clone_url: ");
            e.append(error.as_str());
            return Err(e);
        },
    };
    if !same(url.scheme.as_str(), "https") {
        return Err(owned("repository clone_url must use https"));
    }
    if !same(url.username.as_str(), "") || url.has_password {
        return Err(owned("repository clone_url must not contain credentials"));
    }
    match &url.host {
        None => Err(owned("repository clone_url host is required")),
        Some(host) => {
            if !is_allowed_github_host(host.as_str(), allowed_hosts) {
                let mut e: String = owned("repository clone_url host ");
                e.append(host.as_str());
                e.append(" is not allowlisted");
                return Err(e);
            }
            let mut key: String = owned("http.https://");
            key.append(host.as_str());
            key.append("/.extraheader");
            Ok(CloneTarget { url: url.text, auth_header_key: key })
        },
    }
}

/// The text that `base64` makes of bytes with its standard alphabet and padding.
pub uninterp spec fn base64_standard(bytes: Seq<u8>) -> Seq<char>;

/// Encodes bytes with `base64::engine::general_purpose::STANDARD`. Only that the result is a
/// function of the bytes is claimed.
#[verifier::external_body]
fn encode_base64(text: &str) -> (r: String)
    ensures
        r@ == base64_standard(encode_utf8(text@)),
{
    base64::engine::general_purpose::STANDARD.encode(text)
}

/// The header that carries an installation token to git's server.
pub fn git_auth_header_value(installation_token: &str) -> (r: String)
    ensures
        r@ == "AUTHORIZATION: basic "@ + base64_standard(
            encode_utf8("x-access-token:"@ + installation_token@),
        ),
{
    let mut credentials: String = owned("x-access-token:");
    credentials.append(installation_token);
    let encoded = encode_base64(credentials.as_str());
    let mut s: String = owned("AUTHORIZATION: basic ");
    s.append(encoded.as_str());
    s
}

/// A call of git: its arguments, its settings in the environment, and whether it is made in the
/// checkout.
#[derive(Debug, PartialEq, Eq)]
pub struct GitCommand {
    pub args: Vec<String>,
    pub env: Vec<(String, String)>,
    pub in_checkout: bool,
}

/// What a [`GitCommand`] holds.
#[verifier::ext_equal]
pub struct GitCommandView {
    pub args: Seq<Seq<char>>,
    pub env: Seq<(Seq<char>, Seq<char>)>,
    pub in_checkout: bool,
}

impl View for GitCommand {
    type V = GitCommandView;

    open spec fn view(&self) -> GitCommandView {
        GitCommandView {
            args: texts(self.args@),
            env: self.env@.map_values(|p: (String, String)| (p.0@, p.1@)),
            in_checkout: self.in_checkout,
        }
    }
}

/// The header that carries an installation token to git's server.
pub open spec fn auth_header(installation_token: Seq<char>) -> Seq<char> {
    "AUTHORIZATION: basic "@ + base64_standard(
        encode_utf8("x-access-token:"@ + installation_token),
    )
}

/// The settings of a call of git: it asks no questions, and sends the token to one host alone.
pub open spec fn git_env(auth_header_key: Seq<char>, installation_token: Seq<char>) -> Seq<
    (Seq<char>, Seq<char>),
> {
    seq![
        ("GIT_TERMINAL_PROMPT"@, "0"@),
        ("GIT_CONFIG_COUNT"@, "1"@),
        ("GIT_CONFIG_KEY_0"@, auth_header_key),
        ("GIT_CONFIG_VALUE_0"@, auth_header(installation_token)),
    ]
}

/// A call of git with the given arguments. The token is handed over in the environment, never among
/// the arguments.
pub fn build_git_command(
    args: Vec<String>,
    auth_header_key: &str,
    installation_token: &str,
    in_checkout: bool,
) -> (r: GitCommand)
    ensures
        r.args == args,
        r@.env == git_env(auth_header_key@, installation_token@),
        r.in_checkout == in_checkout,
{
    let mut env: Vec<(String, String)> = Vec::new();
    env.push((owned("GIT_TERMINAL_PROMPT"), owned("0")));
    env.push((owned("GIT_CONFIG_COUNT"), owned("1")));
    env.push((owned("GIT_CONFIG_KEY_0"), owned(auth_header_key)));
    env.push((owned("GIT_CONFIG_VALUE_0"), git_auth_header_value(installation_token)));
    let r = GitCommand { args, env, in_checkout };
    assert(r@.env =~= git_env(auth_header_key@, installation_token@));
    r
}

/// The calls of git that bring a head into a checkout.
pub open spec fn clone_commands(
    target: CloneTarget,
    head_sha: Seq<char>,
    installation_token: Seq<char>,
    checkout: Seq<char>,
) -> Seq<GitCommandView> {
    let env = git_env(target.auth_header_key@, installation_token);
    seq![
        GitCommandView {
            args: seq![
                "clone"@,
                "--filter=blob:none"@,
                "--no-checkout"@,
                target.url@,
                checkout,
            ],
            env,
            in_checkout: false,
        },
        GitCommandView {
            args: seq!["fetch"@, "origin"@, head_sha, "--depth=1"@],
            env,
            in_checkout: true,
        },
        GitCommandView {
            args: seq!["checkout"@, "--detach"@, head_sha],
            env,
            in_checkout: true,
        },
    ]
}

/// The calls of git that bring a head into a checkout.
pub fn git_clone_head(
    target: &CloneTarget,
    head_sha: &str,
    installation_token: &str,
    checkout: &str,
) -> (r: Vec<GitCommand>)
    ensures
        r@.map_values(|c: GitCommand| c@) == clone_commands(
            *target,
            head_sha@,
            installation_token@,
            checkout@,
        ),
{
    let key = target.auth_header_key.as_str();
    let clone_args = vec![
        owned("clone"),
        owned("--filter=blob:none"),
        owned("--no-checkout"),
        target.url.clone(),
        owned(checkout),
    ];
    let fetch_args = vec![owned("fetch"), owned("origin"), owned(head_sha), owned("--depth=1")];
    let checkout_args = vec![owned("checkout"), owned("--detach"), owned(head_sha)];
    proof {
        assert(texts(clone_args@) =~= seq![
            "clone"@,
            "--filter=blob:none"@,
            "--no-checkout"@,
            target.url@,
            checkout@,
        ]);
        assert(texts(fetch_args@) =~= seq!["fetch"@, "origin"@, head_sha@, "--depth=1"@]);
        assert(texts(checkout_args@) =~= seq!["checkout"@, "--detach"@, head_sha@]);
    }
    let mut r: Vec<GitCommand> = Vec::new();
    r.push(build_git_command(clone_args, key, installation_token, false));
    r.push(build_git_command(fetch_args, key, installation_token, true));
    r.push(build_git_command(checkout_args, key, installation_token, true));
    assert(r@.map_values(|c: GitCommand| c@) =~= clone_commands(
        *target,
        head_sha@,
        installation_token@,
        checkout@,
    ));
    r
}

/// What stands in place of what must not be shown.
pub const REDACTED: &'static str = "<redacted>";

/// The line names the authorization header.
pub open spec fn names_authorization(line: Seq<char>) -> bool {
    contains_text(lower_text(line), "authorization:"@)
}

/// The line, or the mark that stands in place of one that names the authorization header.
pub open spec fn shown_line(line: Seq<char>) -> Seq<char> {
    if names_authorization(line) {
        REDACTED@
    } else {
        line
    }
}

/// The text with the token replaced.
pub open spec fn without_token(error: Seq<char>, token: Seq<char>) -> Seq<char> {
    if token.len() == 0 {
        error
    } else {
        replace_text(error, token, REDACTED@)
    }
}

/// Some line names the authorization header.
pub open spec fn any_names_authorization(lines: Seq<Seq<char>>) -> bool {
    exists|i: int| 0 <= i < lines.len() && names_authorization(#[trigger] lines[i])
}

/// The text without the token and without lines that name the authorization header.
pub open spec fn redacted(error: Seq<char>, token: Seq<char>) -> Seq<char> {
    let text = without_token(error, token);
    let lines = lines_of(text);
    if any_names_authorization(lines) {
        joined(lines.map_values(|l: Seq<char>| shown_line(l)), "\n"@)
    } else {
        text
    }
}

fn is_authorization_line(line: &str) -> (r: bool)
    ensures
        r == names_authorization(line@),
{
    let lower = to_ascii_lowercase(line);
    contains(lower.as_str(), "authorization:")
}

/// Takes the installation token, and every line that names the authorization header, out of an
/// error before it is shown.
pub fn redact_git_error(error: &str, installation_token: &str) -> (r: String)
    ensures
        r@ == redacted(error@, installation_token@),
{
    let text: String = if installation_token.is_empty() {
        owned(error)
    } else {
        replace(error, installation_token, REDACTED)
    };
    let all = lines(text.as_str());
    let ghost views = lines_of(text@);
    let mut any: bool = false;
    let mut shown: Vec<String> = Vec::new();
    let mut i: usize = 0;
    while i < all.len()
        invariant
            i <= all@.len(),
            views == texts(all@),
            any == exists|k: int| 0 <= k < i && names_authorization(#[trigger] views[k]),
            texts(shown@) =~= views.take(i as int).map_values(|l: Seq<char>| shown_line(l)),
        decreases all@.len() - i,
    {
        assert(views[i as int] == all@[i as int]@);
        let line: String = if is_authorization_line(all[i].as_str()) {
            any = true;
            assert(names_authorization(views[i as int]));
            owned(REDACTED)
        } else {
            all[i].clone()
        };
        proof {
            lemma_texts_push(shown@, line);
            assert(views.take(i + 1) =~= views.take(i as int).push(views[i as int]));
        }
        shown.push(line);
        i = i + 1;
    }
    assert(views.take(i as int) =~= views);
    if any {
        join(&shown, "\n")
    } else {
        text
    }
}

// ---------------------------------------------------------------------------
// Running programs
// ---------------------------------------------------------------------------

/// How a program ended.
#[derive(Debug, PartialEq, Eq)]
pub enum CommandEnd {
    TimedOut,
    Finished { code: Option<i32>, status: String, stdout: String, stderr: String },
}

/// The scanner's exit codes of zero and one both carry a result; any other program must end with
/// zero.
pub open spec fn exit_accepted(label: Seq<char>, code: Option<i32>) -> bool {
    code == Some(0i32) || (label == "foxguard"@ && code == Some(1i32))
}

/// What a program printed, or why there is nothing to use.
pub fn command_output(label: &str, timeout_secs: u64, end: CommandEnd) -> (r: Result<
    String,
    String,
>)
    ensures
        match end {
            CommandEnd::TimedOut => r matches Err(e) && e@ == label@ + " timed out after "@
                + decimal(timeout_secs as nat) + "s"@,
            CommandEnd::Finished { code, status, stdout, stderr } => if exit_accepted(
                label@,
                code,
            ) {
                r matches Ok(out) && out@ == stdout@
            } else {
                r matches Err(e) && e@ == label@ + " failed with "@ + status@ + ": "@ + stderr@
            },
        },
{
    match end {
        CommandEnd::TimedOut => {
            let mut e: String = owned(label);
            e.append(" timed out after ");
            let n = decimal_string(timeout_secs);
            e.append(n.as_str());
            e.append("s");
            Err(e)
        },
        CommandEnd::Finished { code, status, stdout, stderr } => {
            let accepted = match code {
                Some(c) => c == 0 || (c == 1 && same(label, "foxguard")),
                None => false,
            };
            if accepted {
                Ok(stdout)
            } else {
                let mut e: String = owned(label);
                e.append(" failed with ");
                e.append(status.as_str());
                e.append(": ");
                e.append(stderr.as_str());
                Err(e)
            }
        },
    }
}

/// Whether a failure is that of running out of time.
pub fn is_scan_timeout(error: &str) -> (r: bool)
    ensures
        r == contains_text(error@, "timed out after"@),
{
    contains(error, "timed out after")
}

/// Paths that no scan of a pull request looks at: fixtures, vendored and generated files.
pub open spec fn excluded_globs() -> Seq<Seq<char>> {
    seq![
        "tests/fixtures"@,
        "**/examples/**"@,
        "*-min.js"@,
        "**/vendor/**"@,
        "**/node_modules/**"@,
        "**/*.min.*"@,
        "**/dist/**"@,
        "**/build/**"@,
    ]
}

fn exclude_globs() -> (r: Vec<&'static str>)
    ensures
        r@.map_values(|s: &'static str| s@) == excluded_globs(),
{
    let r: Vec<&'static str> = vec![
        "tests/fixtures",
        "**/examples/**",
        "*-min.js",
        "**/vendor/**",
        "**/node_modules/**",
        "**/*.min.*",
        "**/dist/**",
        "**/build/**",
    ];
    assert(r@.map_values(|s: &'static str| s@) =~= excluded_globs());
    r
}

/// An `--exclude` before each of the first `n` globs.
pub open spec fn exclusions(globs: Seq<Seq<char>>, n: int) -> Seq<Seq<char>>
    decreases n,
{
    if n <= 0 {
        Seq::empty()
    } else {
        exclusions(globs, n - 1).push("--exclude"@).push(globs[n - 1])
    }
}

/// The scanner's arguments.
pub open spec fn scanner_arguments(
    checkout: Seq<char>,
    changed_files_list: Option<Seq<char>>,
) -> Seq<Seq<char>> {
    seq![checkout] + match changed_files_list {
        Some(list) => seq!["--changed-files-from"@, list],
        None => Seq::empty(),
    } + exclusions(excluded_globs(), 8) + seq!["--format"@, "json"@]
}

fn push_text(v: &mut Vec<String>, s: &str)
    ensures
        texts(final(v)@) == texts(old(v)@).push(s@),
{
    let t = owned(s);
    proof {
        lemma_texts_push(v@, t);
    }
    v.push(t);
}

/// The scanner's arguments: a scan of the whole checkout, or of its listed files.
pub fn build_scanner_args(checkout: &str, changed_files_list: Option<&str>) -> (r: Vec<String>)
    ensures
        texts(r@) == scanner_arguments(
            checkout@,
            match changed_files_list {
                Some(l) => Some(l@),
                None => None,
            },
        ),
{
    let mut args: Vec<String> = Vec::new();
    assert(texts(args@) =~= Seq::<Seq<char>>::empty());
    push_text(&mut args, checkout);
    if let Some(list) = changed_files_list {
        push_text(&mut args, "--changed-files-from");
        push_text(&mut args, list);
    }
    let ghost head = texts(args@);
    let globs = exclude_globs();
    let ghost all = excluded_globs();
    let mut i: usize = 0;
    assert(texts(args@) =~= head + exclusions(all, 0));
    assert(globs@.len() == all.len());
    while i < globs.len()
        invariant
            i <= globs@.len(),
            all == globs@.map_values(|s: &'static str| s@),
            texts(args@) == head + exclusions(all, i as int),
        decreases globs@.len() - i,
    {
        assert(all[i as int] == globs@[i as int]@);
        push_text(&mut args, "--exclude");
        push_text(&mut args, globs[i]);
        i = i + 1;
        assert(texts(args@) =~= head + exclusions(all, i as int));
    }
    push_text(&mut args, "--format");
    push_text(&mut args, "json");
    proof {
        let list = match changed_files_list {
            Some(l) => Some(l@),
            None => None,
        };
        assert(texts(args@) =~= scanner_arguments(checkout@, list));
    }
    args
}

// ---------------------------------------------------------------------------
// Scanning
// ---------------------------------------------------------------------------

/// Refuses a checkout that is too large.
pub fn check_repository_size(size: u64) -> (r: Result<(), String>)
    ensures
        if size > MAX_REPO_BYTES {
            r matches Err(e) && e@ == "scan skipped: repository checkout is "@ + decimal(
                size as nat,
            ) + " bytes, above "@ + decimal(MAX_REPO_BYTES as nat) + " byte cap"@
        } else {
            r is Ok
        },
{
    if size > MAX_REPO_BYTES {
        let mut e: String = owned("scan skipped: repository checkout is ");
        let n = decimal_string(size);
        e.append(n.as_str());
        e.append(" bytes, above ");
        let cap = decimal_string(MAX_REPO_BYTES);
        e.append(cap.as_str());
        e.append(" byte cap");
        return Err(e);
    }
    Ok(())
}

/// The policy that a repository's configuration asks for.
pub fn scan_policy(configured: Option<&PrSecurityPolicyInput>) -> (r: Result<
    PrSecurityPolicy,
    String,
>)
    ensures
        ({
            let c = match configured {
                Some(p) => Some(*p),
                None => None,
            };
            let policy = merged(
                c,
                PrSecurityPolicyInput {
                    version: None,
                    scope: None,
                    reporting_threshold: None,
                    blocking_threshold: None,
                },
            );
            match r {
                Ok(p) => p == policy && policy.ordered(),
                Err(e) => !policy.ordered() && e@ == "invalid PR security policy: "@
                    + threshold_order_error(
                    policy.blocking_threshold.blocks_from().unwrap(),
                    policy.reporting_threshold,
                ),
            }
        }),
{
    let overrides = PrSecurityPolicyInput::default();
    match resolve(configured, &overrides) {
        Ok(p) => Ok(p),
        Err(error) => {
            let mut e: String = owned("invalid PR security policy: ");
            e.append(error.as_str());
            Err(e)
        },
    }
}

/// The list of changed files that a second scan would be limited to, one to a line.
pub fn changed_files_list(changed_files: &Option<Vec<String>>) -> (r: Option<String>)
    ensures
        opt_text(r) == match *changed_files {
            Some(files) => if files@.len() > 0 {
                Some(joined(texts(files@), "\n"@))
            } else {
                None
            },
            None => None,
        },
{
    match changed_files {
        Some(files) => if files.len() > 0 {
            Some(join(files, "\n"))
        } else {
            None
        },
        None => None,
    }
}

/// What follows a scan of the whole checkout.
#[derive(Debug, PartialEq, Eq)]
pub enum FullScanStep {
    /// Its output is used.
    Use(String),
    /// It ran out of time: the changed files alone are scanned.
    ScanChangedFiles,
    Fail(String),
}

/// Decides what follows a scan of the whole checkout.
///
/// Only where that scan ran out of time, and the changed files are known, are these scanned
/// alone: a scan that ends keeps its whole coverage.
pub fn after_full_scan(outcome: Result<String, String>, changed_files_known: bool) -> (r:
    FullScanStep)
    ensures
        match outcome {
            Ok(output) => r == FullScanStep::Use(output),
            Err(error) => if contains_text(error@, "timed out after"@) && changed_files_known {
                r == FullScanStep::ScanChangedFiles
            } else {
                r == FullScanStep::Fail(error)
            },
        },
{
    match outcome {
        Ok(output) => FullScanStep::Use(output),
        Err(error) => {
            if is_scan_timeout(error.as_str()) && changed_files_known {
                FullScanStep::ScanChangedFiles
            } else {
                FullScanStep::Fail(error)
            }
        },
    }
}

/// Where the findings stand in the scanner's output.
#[derive(Debug, Clone, Copy, PartialEq, Eq, Structural)]
pub enum FindingsPlace {
    /// Under the key `findings`.
    Enveloped,
    /// The output is their list.
    Bare,
}

/// Where the findings stand in a document that was read.
pub open spec fn findings_verdict(
    r: Result<FindingsPlace, String>,
    document: Result<Node, String>,
) -> bool {
    match document {
        Err(error) => r matches Err(e) && e@ == "failed to parse foxguard JSON output: "@ + error@,
        Ok(root) => if root.field("findings"@) is Some {
            r == Ok::<FindingsPlace, String>(FindingsPlace::Enveloped)
        } else if root.items() is Some {
            r == Ok::<FindingsPlace, String>(FindingsPlace::Bare)
        } else {
            r matches Err(e) && e@ == "foxguard JSON output did not contain findings"@
        },
    }
}

/// Where the findings stand in the scanner's output.
pub fn locate_findings(output: &str) -> (r: Result<FindingsPlace, String>)
    ensures
        findings_verdict(r, json_document(output@)),
{
    locate_findings_in(&parse_json(output))
}

/// Where the findings stand in a document that was read.
pub fn locate_findings_in(document: &Result<Node, String>) -> (r: Result<FindingsPlace, String>)
    ensures
        findings_verdict(r, *document),
{
    match document {
        Err(error) => {
            let mut e: String = owned("failed to parse foxguard JSON output: ");
            e.append(error.as_str());
            Err(e)
        },
        Ok(root) => {
            if root.get("findings").is_some() {
                Ok(FindingsPlace::Enveloped)
            } else if root.as_list().is_some() {
                Ok(FindingsPlace::Bare)
            } else {
                Err(owned("foxguard JSON output did not contain findings"))
            }
        },
    }
}

/// What the policy makes of a scan.
#[derive(Debug)]
pub enum PullRequestPolicyOutcome {
    Evaluated(PrPolicyEvaluation),
    NotEvaluated(PrPolicyNotEvaluated),
}

/// The result of scanning a pull request.
#[derive(Debug)]
pub struct PullRequestScanResult {
    pub pr_number: u64,
    pub repo: String,
    pub head_sha: String,
    pub head_repo_web_url: String,
    pub findings: Vec<Finding>,
    pub policy_outcome: PullRequestPolicyOutcome,
    pub review_messages: usize,
    pub deleted_comments: usize,
    pub posted_check_annotations: usize,
}

impl PullRequestScanResult {
    /// The findings that are shown.
    pub open spec fn transported(&self) -> Seq<Finding> {
        match self.policy_outcome {
            PullRequestPolicyOutcome::Evaluated(e) => e.findings@,
            PullRequestPolicyOutcome::NotEvaluated(_) => self.findings@,
        }
    }

    /// The findings that are shown.
    pub fn findings_for_transport(&self) -> (r: &[Finding])
        ensures
            r@ == self.transported(),
    {
        match &self.policy_outcome {
            PullRequestPolicyOutcome::Evaluated(evaluation) => evaluation.findings.as_slice(),
            PullRequestPolicyOutcome::NotEvaluated(_) => self.findings.as_slice(),
        }
    }

    /// The policy result that the check run shows.
    pub fn check_run_policy(&self) -> (r: CheckRunPolicy<'_>)
        ensures
            match self.policy_outcome {
                PullRequestPolicyOutcome::Evaluated(e) => r matches CheckRunPolicy::Evaluated(x)
                    && *x == e,
                PullRequestPolicyOutcome::NotEvaluated(p) => r
                    matches CheckRunPolicy::NotEvaluated { findings, policy } && findings@
                    == self.findings@ && *policy == p,
            },
    {
        match &self.policy_outcome {
            PullRequestPolicyOutcome::Evaluated(evaluation) => CheckRunPolicy::Evaluated(
                evaluation,
            ),
            PullRequestPolicyOutcome::NotEvaluated(policy) => CheckRunPolicy::NotEvaluated {
                findings: self.findings.as_slice(),
                policy,
            },
        }
    }
}

/// The file as seen from the checkout: what remains of its path below it, or the file as it is
/// where it lies elsewhere.
pub open spec fn seen_from_checkout(file: Seq<char>, checkout: Seq<char>) -> Seq<char> {
    if path_parts(checkout).is_prefix_of(path_parts(file)) {
        parts_text(path_parts(file).skip(path_parts(checkout).len() as int))
    } else {
        file
    }
}

/// The file as seen from the checkout.
pub fn relative_file(file: &str, checkout: &str) -> (r: String)
    ensures
        r@ == seen_from_checkout(file@, checkout@),
{
    let parts = components(file);
    let base = components(checkout);
    proof {
        assert(part_views(parts@).skip(0) =~= part_views(parts@));
        assert(part_views(base@).len() == base@.len() && part_views(parts@).len() == parts@.len());
    }
    if parts_under(&parts, 0, &base) {
        path_from(&parts, base.len())
    } else {
        owned(file)
    }
}

/// What a finished scan becomes. The policy is evaluated on a scan of the whole repository only;
/// a scan of the changed files alone says that it was not.
pub fn finish_scan(
    pull_request: GitHubPullRequest,
    target_repo: &str,
    policy: PrSecurityPolicy,
    findings: Vec<Finding>,
    full_repository_scan: bool,
) -> (r: PullRequestScanResult)
    ensures
        r.pr_number == pull_request.number,
        r.repo@ == target_repo@,
        r.head_sha@ == pull_request.head.sha@,
        r.head_repo_web_url@ == pull_request.head.repo.html_url@,
        r.review_messages == 0,
        r.deleted_comments == 0,
        r.posted_check_annotations == 0,
        if full_repository_scan {
            &&& r.findings@.len() == 0
            &&& r.policy_outcome matches PullRequestPolicyOutcome::Evaluated(e)
            &&& e.findings@ == at_or_above(findings@, policy.reporting_threshold)
            &&& e.report.decision == decide(policy, e.findings@)
            &&& e.report.reporting_threshold == policy.reporting_threshold
            &&& e.report.blocking_threshold == policy.blocking_threshold
            &&& e.report.scoped_findings == findings@.len()
            &&& e.report.included_findings == e.findings@.len()
            &&& e.report.blocking_findings == blocking_count(policy, e.findings@)
            &&& e.report.version == policy.version
            &&& e.report.scope == policy.scope
        } else {
            &&& r.findings@ == findings@
            &&& r.policy_outcome matches PullRequestPolicyOutcome::NotEvaluated(p)
            &&& p.reporting_threshold == policy.reporting_threshold
            &&& p.blocking_threshold == policy.blocking_threshold
            &&& p.version == policy.version
            &&& p.requested_scope == policy.scope
            &&& p.reason == PrPolicyNotEvaluatedReason::ChangedFilesFallback
        },
{
    let (kept, policy_outcome): (Vec<Finding>, PullRequestPolicyOutcome) =
        if full_repository_scan {
        (Vec::new(), PullRequestPolicyOutcome::Evaluated(evaluate(policy, findings)))
    } else {
        (
            findings,
            PullRequestPolicyOutcome::NotEvaluated(
                PrPolicyNotEvaluated::new(
                    policy,
                    PrPolicyNotEvaluatedReason::ChangedFilesFallback,
                ),
            ),
        )
    };
    PullRequestScanResult {
        pr_number: pull_request.number,
        repo: owned(target_repo),
        head_sha: pull_request.head.sha,
        head_repo_web_url: pull_request.head.repo.html_url,
        findings: kept,
        policy_outcome,
        review_messages: 0,
        deleted_comments: 0,
        posted_check_annotations: 0,
    }
}

// ---------------------------------------------------------------------------
// Laws
// ---------------------------------------------------------------------------

/// Of text that does not hold the first character of the mark, nothing was replaced.
proof fn lemma_unreplaced_prefix(s: Seq<char>, token: Seq<char>, to: Seq<char>, j: int, n: int)
    requires
        0 <= j,
        0 <= n,
        to.len() > 0,
        n <= replace_from(s, token, to, j).len(),
        forall|k: int| 0 <= k < n ==> #[trigger] replace_from(s, token, to, j)[k] != to[0],
    ensures
        n > 0 ==> j + n <= s.len(),
        forall|k: int| 0 <= k < n ==> #[trigger] replace_from(s, token, to, j)[k] == s[j + k],
    decreases n,
{
    if n > 0 {
        let r = replace_from(s, token, to, j);
        if j >= s.len() {
        } else if token.len() > 0 && occurs_at(s, token, j) {
            let rest = replace_from(s, token, to, j + token.len());
            assert(r =~= to + rest);
            assert(r[0] == to[0]);
        } else {
            let rest = replace_from(s, token, to, j + 1);
            assert(r =~= seq![s[j]] + rest);
            assert forall|k: int| 0 <= k < n - 1 implies #[trigger] rest[k] != to[0] by {
                assert(r[k + 1] == rest[k]);
            }
            lemma_unreplaced_prefix(s, token, to, j + 1, n - 1);
            assert forall|k: int| 0 <= k < n implies #[trigger] r[k] == s[j + k] by {
                if k > 0 {
                    assert(r[k] == rest[k - 1]);
                }
            }
        }
    }
}

/// The mark cannot complete the token: it neither holds it nor shares its ends with it.
pub open spec fn apart(token: Seq<char>, mark: Seq<char>) -> bool {
    &&& mark.len() > 0
    &&& token.len() > 0
    &&& !contains_text(mark, token)
    &&& !token.contains(mark[0])
    &&& !token.contains(mark.last())
}

proof fn lemma_replaced_everywhere(s: Seq<char>, token: Seq<char>, to: Seq<char>, i: int, k: int)
    requires
        0 <= i,
        apart(token, to),
    ensures
        !occurs_at(replace_from(s, token, to, i), token, k),
    decreases s.len() - i,
{
    let r = replace_from(s, token, to, i);
    let m = token.len() as int;
    if occurs_at(r, token, k) {
        assert forall|p: int| 0 <= p < m implies r[k + p] == #[trigger] token[p] by {
            assert(r.subrange(k, k + m)[p] == token[p]);
        }
        if i >= s.len() {
            assert(false);
        } else if occurs_at(s, token, i) {
            let rest = replace_from(s, token, to, i + m);
            assert(r =~= to + rest);
            let n = to.len() as int;
            if k >= n {
                lemma_replaced_everywhere(s, token, to, i + m, k - n);
                assert(rest.subrange(k - n, k - n + m) =~= r.subrange(k, k + m));
            } else if k + m <= n {
                assert(to.subrange(k, k + m) =~= r.subrange(k, k + m));
                assert(occurs_at(to, token, k));
            } else {
                assert(r[n - 1] == to.last());
                assert(token[n - 1 - k] == to.last());
            }
        } else {
            let rest = replace_from(s, token, to, i + 1);
            assert(r =~= seq![s[i]] + rest);
            if k >= 1 {
                lemma_replaced_everywhere(s, token, to, i + 1, k - 1);
                assert(rest.subrange(k - 1, k - 1 + m) =~= r.subrange(k, k + m));
            } else {
                assert forall|p: int| 0 <= p < m implies #[trigger] r[p] != to[0] by {
                    assert(r[p] == token[p]);
                }
                lemma_unreplaced_prefix(s, token, to, i, m);
                assert(s.subrange(i, i + m) =~= token) by {
                    assert forall|p: int| 0 <= p < m implies s.subrange(i, i + m)[p] == token[p] by {
                        assert(r[p] == s[i + p]);
                    }
                }
            }
        }
    }
}

/// Where a piece of a split text stands in the text; the last piece ends it.
proof fn lemma_piece_position(s: Seq<char>, sep: char, k: int) -> (a: int)
    requires
        0 <= k < split_text(s, sep).len(),
    ensures
        0 <= a,
        a + split_text(s, sep)[k].len() <= s.len(),
        s.subrange(a, a + split_text(s, sep)[k].len()) == split_text(s, sep)[k],
        k == split_text(s, sep).len() - 1 ==> a + split_text(s, sep)[k].len() == s.len(),
    decreases s.len(),
{
    lemma_split_nonempty(s, sep);
    let pieces = split_text(s, sep);
    if s.len() == 0 {
        assert(s.subrange(0, 0) =~= pieces[0]);
        0
    } else {
        let t = s.drop_last();
        let head = split_text(t, sep);
        lemma_split_nonempty(t, sep);
        if s.last() == sep && k == head.len() {
            assert(s.subrange(s.len() as int, s.len() as int) =~= pieces[k]);
            s.len() as int
        } else {
            let a = lemma_piece_position(t, sep, k);
            if s.last() != sep && k == head.len() - 1 {
                assert(t.subrange(a, a + head[k].len()) == head[k]);
                assert(s.subrange(a, a + pieces[k].len()) =~= pieces[k]);
            } else {
                assert(pieces[k] == head[k]);
                assert(s.subrange(a, a + head[k].len()) =~= t.subrange(a, a + head[k].len()));
            }
            a
        }
    }
}

proof fn lemma_part_contains(s: Seq<char>, a: int, b: int, token: Seq<char>)
    requires
        0 <= a <= b <= s.len(),
        contains_text(s.subrange(a, b), token),
    ensures
        contains_text(s, token),
{
    let t = s.subrange(a, b);
    let i = choose|i: int| #[trigger] occurs_at(t, token, i);
    assert(s.subrange(a + i, a + i + token.len()) =~= t.subrange(i, i + token.len()));
    assert(occurs_at(s, token, a + i));
}

proof fn lemma_lines_hold_no_more(s: Seq<char>, token: Seq<char>, k: int)
    requires
        0 <= k < lines_of(s).len(),
        contains_text(lines_of(s)[k], token),
    ensures
        contains_text(s, token),
{
    let pieces = split_text(s, '\n');
    lemma_split_nonempty(s, '\n');
    let a = lemma_piece_position(s, '\n', k);
    let p = pieces[k];
    let line = lines_of(s)[k];
    if k < pieces.len() - 1 {
        assert(line == without_cr(p));
        assert(line =~= s.subrange(a, a + line.len()));
    } else {
        assert(line == p);
    }
    lemma_part_contains(s, a, a + line.len(), token);
}

proof fn lemma_joined_lines_hold_no_more(pieces: Seq<Seq<char>>, token: Seq<char>)
    requires
        token.len() > 0,
        !token.contains('\n'),
        contains_text(joined(pieces, "\n"@), token),
    ensures
        exists|k: int| 0 <= k < pieces.len() && contains_text(#[trigger] pieces[k], token),
    decreases pieces.len(),
{
    reveal_strlit("\n");
    let all = joined(pieces, "\n"@);
    let i = choose|i: int| #[trigger] occurs_at(all, token, i);
    let m = token.len() as int;
    if pieces.len() == 0 {
    } else if pieces.len() == 1 {
        assert(contains_text(pieces[0], token));
    } else {
        let head = joined(pieces.drop_last(), "\n"@);
        let last = pieces.last();
        assert(all =~= head + seq!['\n'] + last);
        let n = head.len() as int;
        if i + m <= n {
            assert(head.subrange(i, i + m) =~= all.subrange(i, i + m));
            assert(occurs_at(head, token, i));
            lemma_joined_lines_hold_no_more(pieces.drop_last(), token);
            let k = choose|k: int|
                0 <= k < pieces.drop_last().len() && contains_text(
                    #[trigger] pieces.drop_last()[k],
                    token,
                );
            assert(contains_text(pieces[k], token));
        } else if i > n {
            assert(last.subrange(i - n - 1, i - n - 1 + m) =~= all.subrange(i, i + m));
            assert(occurs_at(last, token, i - n - 1));
            assert(contains_text(pieces[pieces.len() - 1], token));
        } else {
            assert(all[n] == '\n');
            assert(all.subrange(i, i + m)[n - i] == '\n');
            assert(token[n - i] == '\n');
        }
    }
}

/// A token that cannot be confused with the mark, and that stays within a line, is nowhere in what
/// is left of an error once it is redacted.
pub proof fn redaction_leaves_no_token(error: Seq<char>, token: Seq<char>)
    requires
        apart(token, REDACTED@),
        !token.contains('\n'),
    ensures
        !contains_text(redacted(error, token), token),
{
    let text = without_token(error, token);
    assert(!contains_text(text, token)) by {
        assert forall|k: int| !#[trigger] occurs_at(text, token, k) by {
            lemma_replaced_everywhere(error, token, REDACTED@, 0, k);
        }
    }
    let lines = lines_of(text);
    if any_names_authorization(lines) {
        let shown = lines.map_values(|l: Seq<char>| shown_line(l));
        if contains_text(redacted(error, token), token) {
            lemma_joined_lines_hold_no_more(shown, token);
            let k = choose|k: int| 0 <= k < shown.len() && contains_text(#[trigger] shown[k], token);
            if !names_authorization(lines[k]) {
                lemma_lines_hold_no_more(text, token, k);
            }
        }
    }
}

/// Each glob is excluded by an option of its own, which stands before it.
pub proof fn every_glob_is_excluded(globs: Seq<Seq<char>>, n: int, i: int)
    requires
        0 <= i < n <= globs.len(),
    ensures
        exclusions(globs, n).len() == 2 * n,
        exclusions(globs, n)[2 * i] == "--exclude"@,
        exclusions(globs, n)[2 * i + 1] == globs[i],
    decreases n,
{
    lemma_exclusions_len(globs, n - 1);
    if i < n - 1 {
        every_glob_is_excluded(globs, n - 1, i);
    }
}

proof fn lemma_exclusions_len(globs: Seq<Seq<char>>, n: int)
    requires
        0 <= n,
    ensures
        exclusions(globs, n).len() == 2 * n,
    decreases n,
{
    if n > 0 {
        lemma_exclusions_len(globs, n - 1);
    }
}

} // verus!
