//! Requests of editors and other tools, and their answers.

use crate::cli::{
    ChangeModeArgs, DiffArgs, DiffArgsView, OutputFormat, PolicyArgsView, PrSecurityPolicyArgs,
    ScanArgs, ScanArgsView, SecretsArgs, SecretsArgsView, SeverityFilter,
};
use crate::finding::{copy_opt, copy_strings, Finding, Severity};
use crate::pr_policy::{
    at_or_above, blocking_count, decide, evaluate, PrPolicyNotEvaluated, PrPolicyReport,
    PrSecurityPolicy, PrSecurityPolicyInput,
};
use crate::text::{
    after_last, after_last_char, chars_of, ends_with, lower_text, opt_text, owned, same,
    string_between, texts, to_ascii_lowercase,
};
use vstd::prelude::*;
use vstd::utf8::encode_utf8;

verus! {

/// The version of requests and answers.
pub const ADAPTER_SCHEMA_VERSION: &'static str = "1.0.0";

#[derive(Debug, Clone, Copy, PartialEq, Eq, Structural)]
pub enum AdapterCommand {
    ScanFile,
    ScanWorkspace,
    Diff,
    Secrets,
    Pqc,
    Explain,
    Suppress,
}

/// Which changed files are looked at.
#[derive(Debug, Clone, Copy, PartialEq, Eq, Structural)]
pub enum AdapterChangeMode {
    /// All files, changed or not.
    Off,
    Changed,
    Staged,
    Unstaged,
    AllChanges,
}

impl Default for AdapterChangeMode {
    fn default() -> (r: Self)
        ensures
            r == AdapterChangeMode::Off,
    {
        AdapterChangeMode::Off
    }
}

#[derive(Debug, Clone, Copy, PartialEq, Eq, Structural)]
pub enum AdapterSuppressionKind {
    Inline,
    Config,
    Baseline,
}

/// Which finding a request is about.
#[derive(Debug)]
pub struct AdapterFindingRef {
    pub rule_id: Option<String>,
    pub file: Option<String>,
    pub line: Option<usize>,
    pub column: Option<usize>,
}

impl Default for AdapterFindingRef {
    fn default() -> (r: Self)
        ensures
            r.rule_id is None,
            r.file is None,
            r.line is None,
            r.column is None,
    {
        AdapterFindingRef { rule_id: None, file: None, line: None, column: None }
    }
}

/// A request. `min_confidence` is the bit pattern of a single-precision number.
#[derive(Debug)]
pub struct AdapterRequest {
    pub schema_version: String,
    pub request_id: Option<String>,
    pub command: AdapterCommand,
    pub path: Option<String>,
    pub workspace_root: Option<String>,
    pub base: Option<String>,
    pub severity: Option<Severity>,
    pub config: Option<String>,
    pub pr_security_policy: Option<PrSecurityPolicyInput>,
    pub rules: Option<String>,
    pub codeql_base_db: Option<String>,
    pub codeql_head_db: Option<String>,
    pub no_builtins: bool,
    pub change_mode: AdapterChangeMode,
    pub exclude: Vec<String>,
    pub baseline: Option<String>,
    pub explain: bool,
    pub max_file_size: Option<u64>,
    pub min_confidence: Option<u32>,
    pub finding: Option<AdapterFindingRef>,
    pub suppression: Option<AdapterSuppressionKind>,
}

impl AdapterRequest {
    /// A request for a command that asks for nothing else.
    pub fn new(command: AdapterCommand) -> (r: Self)
        ensures
            r.schema_version@ == ADAPTER_SCHEMA_VERSION@,
            r.request_id is None,
            r.command == command,
            r.path is None,
            r.workspace_root is None,
            r.base is None,
            r.severity is None,
            r.config is None,
            r.pr_security_policy is None,
            r.rules is None,
            r.codeql_base_db is None,
            r.codeql_head_db is None,
            !r.no_builtins,
            r.change_mode == AdapterChangeMode::Off,
            r.exclude@.len() == 0,
            r.baseline is None,
            !r.explain,
            r.max_file_size is None,
            r.min_confidence is None,
            r.finding is None,
            r.suppression is None,
    {
        AdapterRequest {
            schema_version: default_schema_version(),
            request_id: None,
            command,
            path: None,
            workspace_root: None,
            base: None,
            severity: None,
            config: None,
            pr_security_policy: None,
            rules: None,
            codeql_base_db: None,
            codeql_head_db: None,
            no_builtins: false,
            change_mode: AdapterChangeMode::Off,
            exclude: Vec::new(),
            baseline: None,
            explain: false,
            max_file_size: None,
            min_confidence: None,
            finding: None,
            suppression: None,
        }
    }
}

/// The version of a request that names none.
pub fn default_schema_version() -> (r: String)
    ensures
        r@ == ADAPTER_SCHEMA_VERSION@,
{
    owned(ADAPTER_SCHEMA_VERSION)
}

#[derive(Debug, Clone, Copy, PartialEq, Eq, Structural)]
pub struct AdapterSeverityCounts {
    pub low: usize,
    pub medium: usize,
    pub high: usize,
    pub critical: usize,
}

impl Default for AdapterSeverityCounts {
    fn default() -> (r: Self)
        ensures
            r == (AdapterSeverityCounts { low: 0, medium: 0, high: 0, critical: 0 }),
    {
        AdapterSeverityCounts { low: 0, medium: 0, high: 0, critical: 0 }
    }
}

#[derive(Debug, Clone, Copy, PartialEq, Eq, Structural)]
pub struct AdapterSummary {
    pub findings_total: usize,
    pub files_scanned: usize,
    pub duration_ms: u128,
    pub by_severity: AdapterSeverityCounts,
}

#[derive(Debug)]
pub struct AdapterDiffSummary {
    pub base: String,
    pub total_current: usize,
    pub existing_count: usize,
}

#[derive(Debug)]
pub struct AdapterSuppressionSuggestion {
    pub kind: AdapterSuppressionKind,
    pub rule_id: String,
    pub file: String,
    pub line: Option<usize>,
    pub snippet: Option<String>,
    pub config_snippet: Option<String>,
    pub command: Option<String>,
}

#[derive(Debug)]
pub struct AdapterResponse {
    pub schema_version: String,
    pub request_id: Option<String>,
    pub command: Option<AdapterCommand>,
    pub ok: bool,
    pub exit_code: u8,
    pub summary: Option<AdapterSummary>,
    pub findings: Vec<Finding>,
    pub notices: Vec<String>,
    pub diff: Option<AdapterDiffSummary>,
    pub pr_security_policy: Option<PrPolicyReport>,
    pub pr_security_policy_not_evaluated: Option<PrPolicyNotEvaluated>,
    pub suppression: Option<AdapterSuppressionSuggestion>,
    pub error: Option<String>,
}

// ---------------------------------------------------------------------------
// Errors
// ---------------------------------------------------------------------------

/// The answer is the error, and nothing else.
pub open spec fn is_error(
    r: AdapterResponse,
    request_id: Option<Seq<char>>,
    command: Option<AdapterCommand>,
    error: Seq<char>,
) -> bool {
    &&& r.schema_version@ == ADAPTER_SCHEMA_VERSION@
    &&& opt_text(r.request_id) == request_id
    &&& r.command == command
    &&& !r.ok
    &&& r.exit_code == 2
    &&& r.summary is None
    &&& r.findings@.len() == 0
    &&& r.notices@.len() == 0
    &&& r.diff is None
    &&& r.pr_security_policy is None
    &&& r.pr_security_policy_not_evaluated is None
    &&& r.suppression is None
    &&& opt_text(r.error) == Some(error)
}

/// The answer to a request that failed.
pub fn adapter_error_response(
    request_id: Option<String>,
    command: Option<AdapterCommand>,
    error: String,
) -> (r: AdapterResponse)
    ensures
        is_error(r, opt_text(request_id), command, error@),
{
    AdapterResponse {
        schema_version: default_schema_version(),
        request_id,
        command,
        ok: false,
        exit_code: 2,
        summary: None,
        findings: Vec::new(),
        notices: Vec::new(),
        diff: None,
        pr_security_policy: None,
        pr_security_policy_not_evaluated: None,
        suppression: None,
        error: Some(error),
    }
}

/// The answer says that the request failed.
pub open spec fn refuses(r: AdapterResponse, request: AdapterRequest, error: Seq<char>) -> bool {
    is_error(r, opt_text(request.request_id), Some(request.command), error)
}

fn request_error(request: &AdapterRequest, error: String) -> (r: AdapterResponse)
    ensures
        refuses(r, *request, error@),
{
    adapter_error_response(copy_opt(&request.request_id), Some(request.command), error)
}

// ---------------------------------------------------------------------------
// Paths
// ---------------------------------------------------------------------------

/// The path does not depend on a workspace: it begins with a slash or a drive.
pub open spec fn absolute_path(path: Seq<char>) -> bool {
    (path.len() > 0 && path[0] == '/') || (encode_utf8(path).len() > 1 && encode_utf8(path)[1]
        == 0x3a)
}

/// Whether the path does not depend on a workspace.
pub fn is_absolute_path(path: &str) -> (r: bool)
    ensures
        r == absolute_path(path@),
{
    let c = chars_of(path);
    let b = path.as_bytes();
    (c.len() > 0 && c[0] == '/') || (b.len() > 1 && b[1] == 0x3a)
}

/// The path without slashes of either kind at its end.
pub open spec fn without_end_slashes(s: Seq<char>) -> Seq<char>
    decreases s.len(),
{
    if s.len() > 0 && (s.last() == '/' || s.last() == '\\') {
        without_end_slashes(s.drop_last())
    } else {
        s
    }
}

/// The path without `./` at its beginning, however often it stands there.
pub open spec fn without_current(s: Seq<char>) -> Seq<char>
    decreases s.len(),
{
    if s.len() >= 2 && s[0] == '.' && s[1] == '/' {
        without_current(s.skip(2))
    } else {
        s
    }
}

/// A path of a request, seen from its workspace.
pub open spec fn workspace_path(path: Seq<char>, root: Option<Seq<char>>) -> Seq<char> {
    if path == "."@ {
        match root {
            Some(r) => if r.len() > 0 {
                r
            } else {
                "."@
            },
            None => "."@,
        }
    } else if absolute_path(path) {
        path
    } else {
        match root {
            None => path,
            Some(r) => if r == "."@ || r.len() == 0 {
                path
            } else {
                without_end_slashes(r) + "/"@ + without_current(path)
            },
        }
    }
}

fn trim_end_slashes(s: &str) -> (r: String)
    ensures
        r@ == without_end_slashes(s@),
{
    let c = chars_of(s);
    let mut n: usize = c.len();
    assert(c@.take(n as int) =~= s@);
    while n > 0 && (c[n - 1] == '/' || c[n - 1] == '\\')
        invariant
            n <= c@.len(),
            c@ == s@,
            without_end_slashes(s@) == without_end_slashes(c@.take(n as int)),
        decreases n,
    {
        assert(c@.take(n as int).drop_last() =~= c@.take(n - 1));
        assert(c@.take(n as int).last() == c@[n - 1]);
        n = n - 1;
    }
    proof {
        if n > 0 {
            assert(c@.take(n as int).last() == c@[n - 1]);
        }
        assert(c@.subrange(0, n as int) =~= c@.take(n as int));
    }
    string_between(&c, 0, n)
}

fn trim_current(s: &str) -> (r: String)
    ensures
        r@ == without_current(s@),
{
    let c = chars_of(s);
    let n: usize = c.len();
    let mut i: usize = 0;
    assert(c@.skip(0) =~= s@);
    while n - i >= 2 && c[i] == '.' && c[i + 1] == '/'
        invariant
            i <= n,
            n == c@.len(),
            c@ == s@,
            without_current(s@) == without_current(c@.skip(i as int)),
        decreases n - i,
    {
        assert(c@.skip(i as int).skip(2) =~= c@.skip(i + 2));
        i = i + 2;
    }
    assert(c@.subrange(i as int, n as int) =~= c@.skip(i as int));
    string_between(&c, i, n)
}

/// A path of a request, seen from its workspace.
pub fn resolve_workspace_path(path: &str, workspace_root: &Option<String>) -> (r: String)
    ensures
        r@ == workspace_path(path@, opt_text(*workspace_root)),
{
    if same(path, ".") {
        return match workspace_root {
            Some(root) => if chars_of(root.as_str()).len() > 0 {
                root.clone()
            } else {
                owned(".")
            },
            None => owned("."),
        };
    }
    if is_absolute_path(path) {
        return owned(path);
    }
    match workspace_root {
        None => owned(path),
        Some(root) => {
            if same(root.as_str(), ".") || chars_of(root.as_str()).len() == 0 {
                return owned(path);
            }
            let mut s = trim_end_slashes(root.as_str());
            s.append("/");
            let rest = trim_current(path);
            s.append(rest.as_str());
            s
        },
    }
}

/// An optional path of a request, seen from its workspace.
pub open spec fn optional_path(path: Option<Seq<char>>, root: Option<Seq<char>>) -> Option<
    Seq<char>,
> {
    match path {
        Some(p) => Some(workspace_path(p, root)),
        None => None,
    }
}

fn resolve_optional_workspace_path(path: &Option<String>, workspace_root: &Option<String>) -> (r:
    Option<String>)
    ensures
        opt_text(r) == optional_path(opt_text(*path), opt_text(*workspace_root)),
{
    match path {
        Some(p) => Some(resolve_workspace_path(p.as_str(), workspace_root)),
        None => None,
    }
}

/// What a request is about: its path, else its workspace, else the current directory.
pub open spec fn requested_path(request: AdapterRequest) -> Seq<char> {
    match opt_text(request.path) {
        Some(p) => p,
        None => match opt_text(request.workspace_root) {
            Some(root) => root,
            None => "."@,
        },
    }
}

fn path_of(request: &AdapterRequest) -> (r: String)
    ensures
        r@ == requested_path(*request),
{
    match &request.path {
        Some(p) => p.clone(),
        None => match &request.workspace_root {
            Some(root) => root.clone(),
            None => owned("."),
        },
    }
}

// ---------------------------------------------------------------------------
// What to run
// ---------------------------------------------------------------------------

pub open spec fn filter_for(severity: Severity) -> SeverityFilter {
    match severity {
        Severity::Low => SeverityFilter::Low,
        Severity::Medium => SeverityFilter::Medium,
        Severity::High => SeverityFilter::High,
        Severity::Critical => SeverityFilter::Critical,
    }
}

pub open spec fn optional_filter(severity: Option<Severity>) -> Option<SeverityFilter> {
    match severity {
        Some(s) => Some(filter_for(s)),
        None => None,
    }
}

fn severity_filter(severity: Option<Severity>) -> (r: Option<SeverityFilter>)
    ensures
        r == optional_filter(severity),
{
    match severity {
        Some(Severity::Low) => Some(SeverityFilter::Low),
        Some(Severity::Medium) => Some(SeverityFilter::Medium),
        Some(Severity::High) => Some(SeverityFilter::High),
        Some(Severity::Critical) => Some(SeverityFilter::Critical),
        None => None,
    }
}

/// The changed files that a mode stands for.
pub fn change_mode_args(mode: AdapterChangeMode) -> (r: ChangeModeArgs)
    ensures
        r.changed == (mode == AdapterChangeMode::Changed),
        r.staged == (mode == AdapterChangeMode::Staged),
        r.unstaged == (mode == AdapterChangeMode::Unstaged),
        r.all_changes == (mode == AdapterChangeMode::AllChanges),
{
    ChangeModeArgs {
        changed: mode == AdapterChangeMode::Changed,
        staged: mode == AdapterChangeMode::Staged,
        unstaged: mode == AdapterChangeMode::Unstaged,
        all_changes: mode == AdapterChangeMode::AllChanges,
    }
}

pub open spec fn changes_of(mode: AdapterChangeMode) -> ChangeModeArgs {
    ChangeModeArgs {
        changed: mode == AdapterChangeMode::Changed,
        staged: mode == AdapterChangeMode::Staged,
        unstaged: mode == AdapterChangeMode::Unstaged,
        all_changes: mode == AdapterChangeMode::AllChanges,
    }
}

pub open spec fn size_limit(request: AdapterRequest) -> u64 {
    match request.max_file_size {
        Some(n) => n,
        None => 1_048_576,
    }
}

fn max_file_size(request: &AdapterRequest) -> (r: u64)
    ensures
        r == size_limit(*request),
{
    match request.max_file_size {
        Some(n) => n,
        None => 1_048_576,
    }
}

/// The policy settings of a request.
pub open spec fn policy_args(request: AdapterRequest) -> PolicyArgsView {
    match request.pr_security_policy {
        None => PolicyArgsView {
            pr_policy: false,
            policy_version: None,
            scope: None,
            reporting_threshold: None,
            blocking_threshold: None,
            policy_output: None,
        },
        Some(policy) => PolicyArgsView {
            pr_policy: true,
            policy_version: policy.version,
            scope: policy.scope,
            reporting_threshold: optional_filter(policy.reporting_threshold),
            blocking_threshold: policy.blocking_threshold,
            policy_output: None,
        },
    }
}

/// The policy settings of a request.
pub fn pr_security_policy_args(request: &AdapterRequest) -> (r: PrSecurityPolicyArgs)
    ensures
        r@ == policy_args(*request),
{
    match &request.pr_security_policy {
        None => PrSecurityPolicyArgs::default(),
        Some(policy) => PrSecurityPolicyArgs {
            pr_policy: true,
            policy_version: policy.version,
            scope: policy.scope,
            reporting_threshold: severity_filter(policy.reporting_threshold),
            blocking_threshold: policy.blocking_threshold,
            policy_output: None,
        },
    }
}

/// The scan that a request asks for.
pub open spec fn scan_of(
    request: AdapterRequest,
    path: Seq<char>,
    explain: bool,
    pq_mode: bool,
) -> ScanArgsView {
    let root = opt_text(request.workspace_root);
    ScanArgsView {
        path,
        config: optional_path(opt_text(request.config), root),
        format: OutputFormat::Json,
        severity: optional_filter(request.severity),
        rules: optional_path(opt_text(request.rules), root),
        codeql_db: None,
        no_builtins: request.no_builtins,
        changes: changes_of(request.change_mode),
        changed_files_from: None,
        exclude: texts(request.exclude@),
        baseline: optional_path(opt_text(request.baseline), root),
        write_baseline: None,
        explain: explain || request.explain || pq_mode,
        fix: false,
        github_pr: None,
        pr_security_policy: policy_args(request),
        quiet: true,
        output: None,
        max_file_size: size_limit(request),
        show_confidence: false,
        min_confidence: request.min_confidence,
        pq_mode,
        cnsa2: pq_mode,
        sca: false,
        sca_offline: false,
        sca_db: None,
        sca_cache: None,
    }
}

/// The scan that a request asks for.
pub fn scan_args(request: &AdapterRequest, path: String, explain: bool, pq_mode: bool) -> (r:
    ScanArgs)
    ensures
        r@ == scan_of(*request, path@, explain, pq_mode),
{
    ScanArgs {
        path,
        config: resolve_optional_workspace_path(&request.config, &request.workspace_root),
        format: OutputFormat::Json,
        severity: severity_filter(request.severity),
        rules: resolve_optional_workspace_path(&request.rules, &request.workspace_root),
        codeql_db: None,
        no_builtins: request.no_builtins,
        changes: change_mode_args(request.change_mode),
        changed_files_from: None,
        exclude: copy_strings(&request.exclude),
        baseline: resolve_optional_workspace_path(&request.baseline, &request.workspace_root),
        write_baseline: None,
        explain: explain || request.explain || pq_mode,
        fix: false,
        github_pr: None,
        pr_security_policy: pr_security_policy_args(request),
        quiet: true,
        output: None,
        max_file_size: max_file_size(request),
        show_confidence: false,
        min_confidence: request.min_confidence,
        pq_mode,
        cnsa2: pq_mode,
        sca: false,
        sca_offline: false,
        sca_db: None,
        sca_cache: None,
    }
}

/// The comparison that a request asks for.
pub open spec fn diff_of(request: AdapterRequest, path: Seq<char>, base: Seq<char>) -> DiffArgsView {
    let root = opt_text(request.workspace_root);
    DiffArgsView {
        target: base,
        path: workspace_path(path, root),
        config: optional_path(opt_text(request.config), root),
        format: OutputFormat::Json,
        severity: optional_filter(request.severity),
        rules: optional_path(opt_text(request.rules), root),
        codeql_base_db: optional_path(opt_text(request.codeql_base_db), root),
        codeql_head_db: optional_path(opt_text(request.codeql_head_db), root),
        no_builtins: request.no_builtins,
        output: None,
        github_pr: None,
        pr_security_policy: policy_args(request),
        max_file_size: size_limit(request),
    }
}

/// The comparison that a request asks for.
pub fn adapter_diff_args(request: &AdapterRequest, path: &str, base: &str) -> (r: DiffArgs)
    ensures
        r@ == diff_of(*request, path@, base@),
{
    DiffArgs {
        target: owned(base),
        path: resolve_workspace_path(path, &request.workspace_root),
        config: resolve_optional_workspace_path(&request.config, &request.workspace_root),
        format: OutputFormat::Json,
        severity: severity_filter(request.severity),
        rules: resolve_optional_workspace_path(&request.rules, &request.workspace_root),
        codeql_base_db: resolve_optional_workspace_path(
            &request.codeql_base_db,
            &request.workspace_root,
        ),
        codeql_head_db: resolve_optional_workspace_path(
            &request.codeql_head_db,
            &request.workspace_root,
        ),
        no_builtins: request.no_builtins,
        output: None,
        github_pr: None,
        pr_security_policy: pr_security_policy_args(request),
        max_file_size: max_file_size(request),
    }
}

/// The scan for secrets that a request asks for.
pub open spec fn secrets_of(request: AdapterRequest) -> SecretsArgsView {
    let root = opt_text(request.workspace_root);
    SecretsArgsView {
        path: workspace_path(requested_path(request), root),
        config: optional_path(opt_text(request.config), root),
        format: OutputFormat::Json,
        changes: changes_of(request.change_mode),
        baseline: optional_path(opt_text(request.baseline), root),
        write_baseline: None,
        output: None,
        exclude_paths: texts(request.exclude@),
        exclude_path_file: None,
        ignored_rules: Seq::empty(),
        max_file_size: size_limit(request),
    }
}

/// The scan for secrets that a request asks for.
pub fn secrets_args(request: &AdapterRequest) -> (r: SecretsArgs)
    ensures
        r@ == secrets_of(*request),
{
    let path = path_of(request);
    let ignored_rules: Vec<String> = Vec::new();
    assert(texts(ignored_rules@) =~= Seq::<Seq<char>>::empty());
    SecretsArgs {
        path: resolve_workspace_path(path.as_str(), &request.workspace_root),
        config: resolve_optional_workspace_path(&request.config, &request.workspace_root),
        format: OutputFormat::Json,
        changes: change_mode_args(request.change_mode),
        baseline: resolve_optional_workspace_path(&request.baseline, &request.workspace_root),
        write_baseline: None,
        output: None,
        exclude_paths: copy_strings(&request.exclude),
        exclude_path_file: None,
        ignored_rules,
        max_file_size: max_file_size(request),
    }
}

/// What to do for a request.
#[derive(Debug)]
pub enum AdapterPlan {
    /// There is nothing to run.
    Answer(AdapterResponse),
    Scan(ScanArgs),
    Secrets(SecretsArgs),
    Diff(DiffArgs),
}

/// The branch that a comparison is made with.
pub open spec fn base_of(request: AdapterRequest) -> Seq<char> {
    match opt_text(request.base) {
        Some(b) => b,
        None => "main"@,
    }
}

fn base_branch(request: &AdapterRequest) -> (r: String)
    ensures
        r@ == base_of(*request),
{
    match &request.base {
        Some(b) => b.clone(),
        None => owned("main"),
    }
}

// ---------------------------------------------------------------------------
// Suppressing a finding
// ---------------------------------------------------------------------------

/// How a comment begins in a file of this name.
pub open spec fn comment_mark(path: Seq<char>) -> Seq<char> {
    match after_last_char(lower_text(path), '.') {
        Some(e) => if e == "py"@ || e == "pyw"@ || e == "rb"@ || e == "rake"@ || e == "yml"@ || e
            == "yaml"@ || e == "sh"@ || e == "bash"@ || e == "zsh"@ {
            "#"@
        } else {
            "//"@
        },
        None => "//"@,
    }
}

/// How a comment begins in a file of this name.
pub fn comment_prefix_for_path(path: &str) -> (r: &'static str)
    ensures
        r@ == comment_mark(path@),
{
    let lower = to_ascii_lowercase(path);
    match after_last(lower.as_str(), '.') {
        Some(extension) => {
            let e = extension.as_str();
            if same(e, "py") || same(e, "pyw") || same(e, "rb") || same(e, "rake") || same(e, "yml")
                || same(e, "yaml") || same(e, "sh") || same(e, "bash") || same(e, "zsh") {
                "#"
            } else {
                "//"
            }
        },
        None => "//",
    }
}

/// The suggestion tells how to suppress the findings of a rule in a file.
pub open spec fn suggests(
    r: AdapterSuppressionSuggestion,
    kind: AdapterSuppressionKind,
    rule_id: Seq<char>,
    file: Seq<char>,
    line: Option<usize>,
) -> bool {
    &&& r.kind == kind
    &&& r.rule_id@ == rule_id
    &&& r.file@ == file
    &&& r.line == line
    &&& opt_text(r.snippet) == match kind {
        AdapterSuppressionKind::Inline => Some(
            comment_mark(file) + " foxguard: ignore["@ + rule_id + "]"@,
        ),
        _ => None,
    }
    &&& opt_text(r.config_snippet) == match kind {
        AdapterSuppressionKind::Config => Some(
            "scan:\n  ignore_rules:\n    - path: "@ + file + "\n      rules:\n        - "@ + rule_id
                + "\n"@,
        ),
        _ => None,
    }
    &&& opt_text(r.command) == match kind {
        AdapterSuppressionKind::Baseline => Some(
            "foxguard baseline --output .foxguard/baseline.json "@ + file,
        ),
        _ => None,
    }
}

/// How to suppress the findings of a rule in a file.
pub fn suppression_suggestion(
    kind: AdapterSuppressionKind,
    rule_id: &str,
    file: &str,
    line: Option<usize>,
) -> (r: AdapterSuppressionSuggestion)
    ensures
        suggests(r, kind, rule_id@, file@, line),
{
    let mut snippet: Option<String> = None;
    let mut config_snippet: Option<String> = None;
    let mut command: Option<String> = None;
    match kind {
        AdapterSuppressionKind::Inline => {
            let mut s: String = owned(comment_prefix_for_path(file));
            s.append(" foxguard: ignore[");
            s.append(rule_id);
            s.append("]");
            snippet = Some(s);
        },
        AdapterSuppressionKind::Config => {
            let mut s: String = owned("scan:\n  ignore_rules:\n    - path: ");
            s.append(file);
            s.append("\n      rules:\n        - ");
            s.append(rule_id);
            s.append("\n");
            config_snippet = Some(s);
        },
        AdapterSuppressionKind::Baseline => {
            let mut s: String = owned("foxguard baseline --output .foxguard/baseline.json ");
            s.append(file);
            command = Some(s);
        },
    }
    AdapterSuppressionSuggestion {
        kind,
        rule_id: owned(rule_id),
        file: owned(file),
        line,
        snippet,
        config_snippet,
        command,
    }
}

// ---------------------------------------------------------------------------
// Answers
// ---------------------------------------------------------------------------

/// How many of the findings have the severity.
pub open spec fn with_severity(findings: Seq<Finding>, severity: Severity) -> nat {
    findings.filter(|f: Finding| f.severity == severity).len()
}

/// The summary of findings.
pub open spec fn is_summary(
    r: AdapterSummary,
    findings: Seq<Finding>,
    files_scanned: usize,
    duration_ms: u128,
) -> bool {
    &&& r.findings_total == findings.len()
    &&& r.files_scanned == files_scanned
    &&& r.duration_ms == duration_ms
    &&& r.by_severity.low == with_severity(findings, Severity::Low)
    &&& r.by_severity.medium == with_severity(findings, Severity::Medium)
    &&& r.by_severity.high == with_severity(findings, Severity::High)
    &&& r.by_severity.critical == with_severity(findings, Severity::Critical)
}

/// The summary of findings.
pub fn summarize(findings: &Vec<Finding>, files_scanned: usize, duration_ms: u128) -> (r:
    AdapterSummary)
    ensures
        is_summary(r, findings@, files_scanned, duration_ms),
{
    let n: usize = findings.len();
    let mut c = AdapterSeverityCounts::default();
    let ghost low = |f: Finding| f.severity == Severity::Low;
    let ghost medium = |f: Finding| f.severity == Severity::Medium;
    let ghost high = |f: Finding| f.severity == Severity::High;
    let ghost critical = |f: Finding| f.severity == Severity::Critical;
    let mut i: usize = 0;
    proof {
        reveal(Seq::filter);
        assert(findings@.take(0) =~= Seq::<Finding>::empty());
    }
    while i < n
        invariant
            i <= n,
            n == findings@.len(),
            low == (|f: Finding| f.severity == Severity::Low),
            medium == (|f: Finding| f.severity == Severity::Medium),
            high == (|f: Finding| f.severity == Severity::High),
            critical == (|f: Finding| f.severity == Severity::Critical),
            c.low == findings@.take(i as int).filter(low).len(),
            c.medium == findings@.take(i as int).filter(medium).len(),
            c.high == findings@.take(i as int).filter(high).len(),
            c.critical == findings@.take(i as int).filter(critical).len(),
            c.low + c.medium + c.high + c.critical == i,
        decreases n - i,
    {
        proof {
            let before = findings@.take(i as int);
            let f = findings@[i as int];
            assert(findings@.take(i + 1) =~= before.push(f));
            before.lemma_filter_push(f, low);
            before.lemma_filter_push(f, medium);
            before.lemma_filter_push(f, high);
            before.lemma_filter_push(f, critical);
        }
        match findings[i].severity {
            Severity::Low => {
                c.low = c.low + 1;
            },
            Severity::Medium => {
                c.medium = c.medium + 1;
            },
            Severity::High => {
                c.high = c.high + 1;
            },
            Severity::Critical => {
                c.critical = c.critical + 1;
            },
        }
        i = i + 1;
    }
    assert(findings@.take(n as int) =~= findings@);
    AdapterSummary { findings_total: n, files_scanned, duration_ms, by_severity: c }
}

/// The finding is the one referred to, as far as the reference goes.
pub open spec fn refers_to(selector: AdapterFindingRef, f: Finding) -> bool {
    &&& selector.rule_id matches Some(id) ==> f.rule_id@ == id@
    &&& selector.file matches Some(file) ==> file@.is_suffix_of(f.file@)
    &&& selector.line matches Some(line) ==> f.line == line
    &&& selector.column matches Some(column) ==> f.column == column
}

/// The findings referred to.
pub open spec fn selection(findings: Seq<Finding>, selector: Option<AdapterFindingRef>) -> Seq<
    Finding,
> {
    match selector {
        None => findings,
        Some(s) => findings.filter(|f: Finding| refers_to(s, f)),
    }
}

fn is_referred_to(selector: &AdapterFindingRef, f: &Finding) -> (r: bool)
    ensures
        r == refers_to(*selector, *f),
{
    if let Some(id) = &selector.rule_id {
        if !same(f.rule_id.as_str(), id.as_str()) {
            return false;
        }
    }
    if let Some(file) = &selector.file {
        if !ends_with(f.file.as_str(), file.as_str()) {
            return false;
        }
    }
    if let Some(line) = selector.line {
        if f.line != line {
            return false;
        }
    }
    if let Some(column) = selector.column {
        if f.column != column {
            return false;
        }
    }
    true
}

/// The findings referred to; all of them where there is no reference.
pub fn select_findings(findings: Vec<Finding>, selector: &Option<AdapterFindingRef>) -> (r: Vec<
    Finding,
>)
    ensures
        r@ == selection(findings@, *selector),
{
    let s = match selector {
        None => {
            return findings;
        },
        Some(s) => s,
    };
    let ghost all = findings@;
    let ghost p = |f: Finding| refers_to(*s, f);
    let mut r: Vec<Finding> = Vec::new();
    proof {
        reveal(Seq::filter);
        assert(all.take(0) =~= Seq::<Finding>::empty());
        assert(r@ =~= all.take(0).filter(p));
    }
    for f in it: findings
        invariant
            it.seq() == all,
            p == (|f: Finding| refers_to(*s, f)),
            r@ == all.take(it.index() as int).filter(p),
    {
        proof {
            let i = it.index() as int;
            assert(all.take(i + 1) =~= all.take(i).push(all[i]));
            all.take(i).lemma_filter_push(all[i], p);
        }
        if is_referred_to(s, &f) {
            r.push(f);
        }
    }
    assert(all.take(all.len() as int) =~= all);
    r
}

/// The report of a policy on findings.
pub open spec fn is_report(r: PrPolicyReport, policy: PrSecurityPolicy, findings: Seq<Finding>) -> bool {
    let reported = at_or_above(findings, policy.reporting_threshold);
    &&& r.version == policy.version
    &&& r.scope == policy.scope
    &&& r.reporting_threshold == policy.reporting_threshold
    &&& r.blocking_threshold == policy.blocking_threshold
    &&& r.decision == decide(policy, reported)
    &&& r.scoped_findings == findings.len()
    &&& r.included_findings == reported.len()
    &&& r.blocking_findings == blocking_count(policy, reported)
}

/// The findings that are left under a policy, where there is one.
pub open spec fn under_policy(policy: Option<PrSecurityPolicy>, findings: Seq<Finding>) -> Seq<
    Finding,
> {
    match policy {
        None => findings,
        Some(p) => at_or_above(findings, p.reporting_threshold),
    }
}

/// Holds findings to a policy: what is left of them, the report, and the exit code.
pub fn apply_pr_security_policy(policy: Option<PrSecurityPolicy>, findings: Vec<Finding>) -> (r: (
    Vec<Finding>,
    Option<PrPolicyReport>,
    Option<u8>,
))
    ensures
        r.0@ == under_policy(policy, findings@),
        match policy {
            None => r.1 is None && r.2 is None,
            Some(p) => {
                &&& r.1 matches Some(report) && is_report(report, p, findings@)
                &&& r.2 matches Some(code) && code as int == decide(p, r.0@).code()
            },
        },
{
    match policy {
        None => (findings, None, None),
        Some(p) => {
            let evaluation = evaluate(p, findings);
            let report = evaluation.report;
            let code: u8 = if report.decision.exit_code() == 1 {
                1
            } else {
                0
            };
            (evaluation.findings, Some(report), Some(code))
        },
    }
}

/// What running a command brought.
#[derive(Debug)]
pub struct RunResult {
    pub findings: Vec<Finding>,
    pub files_scanned: usize,
    pub duration_ms: u128,
    pub notices: Vec<String>,
    pub pr_security_policy: Option<PrSecurityPolicy>,
    pub pr_security_policy_not_evaluated: Option<PrPolicyNotEvaluated>,
    pub total_current: usize,
    pub existing_count: usize,
}

/// The exit code for findings without a policy.
pub open spec fn plain_exit_code(findings: Seq<Finding>) -> u8 {
    if findings.len() == 0 {
        0
    } else {
        1
    }
}

/// The exit code for findings without a policy.
pub fn findings_exit_code(findings: &Vec<Finding>) -> (r: u8)
    ensures
        r == plain_exit_code(findings@),
{
    if findings.len() == 0 {
        0
    } else {
        1
    }
}

/// The answer belongs to the request and reports no error.
pub open spec fn accepts(r: AdapterResponse, request: AdapterRequest) -> bool {
    &&& r.schema_version@ == ADAPTER_SCHEMA_VERSION@
    &&& opt_text(r.request_id) == opt_text(request.request_id)
    &&& r.command == Some(request.command)
    &&& r.ok
    &&& r.error is None
}

/// A policy holds for every command but the search for secrets.
pub open spec fn policy_of(request: AdapterRequest, run: RunResult) -> Option<PrSecurityPolicy> {
    if request.command == AdapterCommand::Secrets {
        None
    } else {
        run.pr_security_policy
    }
}

/// The findings that a request is answered with: those left under the policy, and of these, for an
/// explanation, those referred to.
pub open spec fn answer_findings(request: AdapterRequest, run: RunResult) -> Seq<Finding> {
    let left = under_policy(policy_of(request, run), run.findings@);
    if request.command == AdapterCommand::Explain {
        selection(left, request.finding)
    } else {
        left
    }
}

/// The answer to a request whose command ran.
pub open spec fn reports(r: AdapterResponse, request: AdapterRequest, run: RunResult) -> bool {
    let findings = answer_findings(request, run);
    let policy = policy_of(request, run);
    &&& accepts(r, request)
    &&& r.findings@ == findings
    &&& r.notices@ == run.notices@
    &&& r.summary matches Some(s) && is_summary(s, findings, run.files_scanned, run.duration_ms)
    &&& r.suppression is None
    &&& match policy {
        None => r.pr_security_policy is None && r.exit_code == plain_exit_code(findings),
        Some(p) => {
            &&& r.pr_security_policy matches Some(report) && is_report(report, p, run.findings@)
            &&& r.exit_code as int == decide(p, under_policy(policy, run.findings@)).code()
        },
    }
    &&& r.pr_security_policy_not_evaluated == if request.command == AdapterCommand::Secrets {
        None
    } else {
        run.pr_security_policy_not_evaluated
    }
    &&& if request.command == AdapterCommand::Diff {
        r.diff matches Some(d) && d.base@ == base_of(request) && d.total_current
            == run.total_current && d.existing_count == run.existing_count
    } else {
        r.diff is None
    }
}

/// The answer to a request whose command ran.
pub fn run_response(request: &AdapterRequest, run: RunResult) -> (r: AdapterResponse)
    ensures
        reports(r, *request, run),
{
    let secrets = request.command == AdapterCommand::Secrets;
    let policy: Option<PrSecurityPolicy> = if secrets {
        None
    } else {
        run.pr_security_policy
    };
    let not_evaluated: Option<PrPolicyNotEvaluated> = if secrets {
        None
    } else {
        run.pr_security_policy_not_evaluated
    };
    let (left, report, code) = apply_pr_security_policy(policy, run.findings);
    let findings = if request.command == AdapterCommand::Explain {
        select_findings(left, &request.finding)
    } else {
        left
    };
    let summary = summarize(&findings, run.files_scanned, run.duration_ms);
    let exit_code: u8 = match code {
        Some(c) => c,
        None => findings_exit_code(&findings),
    };
    let diff = if request.command == AdapterCommand::Diff {
        Some(
            AdapterDiffSummary {
                base: base_branch(request),
                total_current: run.total_current,
                existing_count: run.existing_count,
            },
        )
    } else {
        None
    };
    AdapterResponse {
        schema_version: default_schema_version(),
        request_id: copy_opt(&request.request_id),
        command: Some(request.command),
        ok: true,
        exit_code,
        summary: Some(summary),
        findings,
        notices: run.notices,
        diff,
        pr_security_policy: report,
        pr_security_policy_not_evaluated: not_evaluated,
        suppression: None,
        error: None,
    }
}

/// The answer to a request to suppress a finding.
pub open spec fn answers_suppression(r: AdapterResponse, request: AdapterRequest) -> bool {
    match request.finding {
        None => refuses(r, request, "suppress requires finding"@),
        Some(finding) => match finding.rule_id {
            None => refuses(r, request, "suppress requires finding.rule_id"@),
            Some(rule_id) => {
                let file = match opt_text(finding.file) {
                    Some(f) => f,
                    None => match opt_text(request.path) {
                        Some(p) => p,
                        None => "."@,
                    },
                };
                let kind = match request.suppression {
                    Some(k) => k,
                    None => AdapterSuppressionKind::Inline,
                };
                &&& accepts(r, request)
                &&& r.exit_code == 0
                &&& r.summary is None
                &&& r.findings@.len() == 0
                &&& r.notices@.len() == 0
                &&& r.diff is None
                &&& r.pr_security_policy is None
                &&& r.pr_security_policy_not_evaluated is None
                &&& r.suppression matches Some(s) && suggests(
                    s,
                    kind,
                    rule_id@,
                    file,
                    finding.line,
                )
            },
        },
    }
}

fn suppress_response(request: &AdapterRequest) -> (r: AdapterResponse)
    ensures
        answers_suppression(r, *request),
{
    let finding = match &request.finding {
        Some(f) => f,
        None => {
            return request_error(request, owned("suppress requires finding"));
        },
    };
    let rule_id = match &finding.rule_id {
        Some(id) => id,
        None => {
            return request_error(request, owned("suppress requires finding.rule_id"));
        },
    };
    let file: String = match &finding.file {
        Some(f) => f.clone(),
        None => match &request.path {
            Some(p) => p.clone(),
            None => owned("."),
        },
    };
    let kind = match request.suppression {
        Some(k) => k,
        None => AdapterSuppressionKind::Inline,
    };
    let suggestion = suppression_suggestion(kind, rule_id.as_str(), file.as_str(), finding.line);
    AdapterResponse {
        schema_version: default_schema_version(),
        request_id: copy_opt(&request.request_id),
        command: Some(request.command),
        ok: true,
        exit_code: 0,
        summary: None,
        findings: Vec::new(),
        notices: Vec::new(),
        diff: None,
        pr_security_policy: None,
        pr_security_policy_not_evaluated: None,
        suppression: Some(suggestion),
        error: None,
    }
}

/// What to do for a request.
pub open spec fn plans(plan: AdapterPlan, request: AdapterRequest) -> bool {
    let path = workspace_path(requested_path(request), opt_text(request.workspace_root));
    match request.command {
        AdapterCommand::ScanFile => if request.path is None {
            plan matches AdapterPlan::Answer(r) && refuses(r, request, "scan-file requires path"@)
        } else {
            plan matches AdapterPlan::Scan(args) && args@ == scan_of(request, path, false, false)
        },
        AdapterCommand::ScanWorkspace => plan matches AdapterPlan::Scan(args) && args@ == scan_of(
            request,
            path,
            false,
            false,
        ),
        AdapterCommand::Pqc => plan matches AdapterPlan::Scan(args) && args@ == scan_of(
            request,
            path,
            false,
            true,
        ),
        AdapterCommand::Explain => if request.path is None && request.workspace_root is None {
            plan matches AdapterPlan::Answer(r) && refuses(
                r,
                request,
                "explain requires path or workspace_root"@,
            )
        } else {
            plan matches AdapterPlan::Scan(args) && args@ == scan_of(request, path, true, false)
        },
        AdapterCommand::Secrets => plan matches AdapterPlan::Secrets(args) && args@ == secrets_of(
            request,
        ),
        AdapterCommand::Diff => plan matches AdapterPlan::Diff(args) && args@ == diff_of(
            request,
            requested_path(request),
            base_of(request),
        ),
        AdapterCommand::Suppress => plan matches AdapterPlan::Answer(r) && answers_suppression(
            r,
            request,
        ),
    }
}

/// What to do for a request: the command to run, or the answer where nothing is to be run.
pub fn plan_adapter_request(request: &AdapterRequest) -> (r: AdapterPlan)
    ensures
        plans(r, *request),
{
    let path = path_of(request);
    let resolved = resolve_workspace_path(path.as_str(), &request.workspace_root);
    match request.command {
        AdapterCommand::ScanFile => {
            if request.path.is_none() {
                AdapterPlan::Answer(request_error(request, owned("scan-file requires path")))
            } else {
                AdapterPlan::Scan(scan_args(request, resolved, false, false))
            }
        },
        AdapterCommand::ScanWorkspace => AdapterPlan::Scan(
            scan_args(request, resolved, false, false),
        ),
        AdapterCommand::Pqc => AdapterPlan::Scan(scan_args(request, resolved, false, true)),
        AdapterCommand::Explain => {
            if request.path.is_none() && request.workspace_root.is_none() {
                AdapterPlan::Answer(
                    request_error(request, owned("explain requires path or workspace_root")),
                )
            } else {
                AdapterPlan::Scan(scan_args(request, resolved, true, false))
            }
        },
        AdapterCommand::Secrets => AdapterPlan::Secrets(secrets_args(request)),
        AdapterCommand::Diff => {
            let base = base_branch(request);
            AdapterPlan::Diff(adapter_diff_args(request, path.as_str(), base.as_str()))
        },
        AdapterCommand::Suppress => AdapterPlan::Answer(suppress_response(request)),
    }
}

/// The request needs a command to be run.
pub open spec fn needs_run(request: AdapterRequest) -> bool {
    match request.command {
        AdapterCommand::ScanFile => request.path is Some,
        AdapterCommand::Explain => request.path is Some || request.workspace_root is Some,
        AdapterCommand::Suppress => false,
        _ => true,
    }
}

/// The answer to a request, given what running its command brought, where it needs one.
pub fn execute_adapter_request(
    request: &AdapterRequest,
    outcome: Option<Result<RunResult, String>>,
) -> (r: AdapterResponse)
    requires
        needs_run(*request) ==> outcome is Some,
    ensures
        if needs_run(*request) {
            match outcome.unwrap() {
                Ok(run) => reports(r, *request, run),
                Err(error) => refuses(r, *request, error@),
            }
        } else {
            plans(AdapterPlan::Answer(r), *request)
        },
{
    match plan_adapter_request(request) {
        AdapterPlan::Answer(response) => response,
        _ => match outcome {
            Some(Ok(run)) => run_response(request, run),
            Some(Err(error)) => request_error(request, error),
            None => request_error(request, owned("")),
        },
    }
}

/// An answer with an error carries no result, and an answer without one carries no error: the exit
/// code tells them apart.
pub proof fn answers_are_results_or_errors(
    r: AdapterResponse,
    request: AdapterRequest,
    outcome: Result<RunResult, String>,
)
    requires
        match outcome {
            Ok(run) => reports(r, request, run),
            Err(error) => refuses(r, request, error@),
        },
    ensures
        r.ok == outcome is Ok,
        r.ok == (r.exit_code < 2),
        r.ok == (r.summary is Some),
        r.ok == (r.error is None),
        !r.ok ==> r.findings@.len() == 0,
{
}

/// Every finding is counted once: the counts by severity add up to the number of findings.
pub proof fn severity_counts_add_up(findings: Seq<Finding>)
    ensures
        with_severity(findings, Severity::Low) + with_severity(findings, Severity::Medium)
            + with_severity(findings, Severity::High) + with_severity(
            findings,
            Severity::Critical,
        ) == findings.len(),
    decreases findings.len(),
{
    reveal(Seq::filter);
    if findings.len() > 0 {
        severity_counts_add_up(findings.drop_last());
    }
}

/// Slashes of either kind at the end of a path are taken away, all of them and nothing else.
pub proof fn slashes_at_the_end_are_dropped(s: Seq<char>, slashes: Seq<char>)
    requires
        s.len() == 0 || s.last() != '/' && s.last() != '\\',
        forall|i: int|
            0 <= i < slashes.len() ==> #[trigger] slashes[i] == '/' || slashes[i] == '\\',
    ensures
        without_end_slashes(s + slashes) == s,
    decreases slashes.len(),
{
    if slashes.len() == 0 {
        assert(s + slashes =~= s);
    } else {
        let t = slashes.drop_last();
        assert forall|i: int| 0 <= i < t.len() implies #[trigger] t[i] == '/' || t[i] == '\\' by {
            assert(t[i] == slashes[i]);
        }
        slashes_at_the_end_are_dropped(s, t);
        assert((s + slashes).drop_last() =~= s + t);
        assert((s + slashes).last() == slashes[slashes.len() - 1]);
    }
}

/// Steps to where one already is are taken away from the beginning of a path, however many they are.
pub proof fn steps_to_the_same_place_are_dropped(s: Seq<char>)
    ensures
        without_current(seq!['.', '/'] + s) == without_current(s),
        s.len() < 2 || s[0] != '.' || s[1] != '/' ==> without_current(s) == s,
{
    let t = seq!['.', '/'] + s;
    assert(t[0] == '.' && t[1] == '/');
    assert(t.skip(2) =~= s);
}

} // verus!
