//! The requests that show a scan on a pull request, and the listings that come before them.

use crate::finding::{finding_views, Finding, FindingView};
use crate::github_app::review::{
    added_lines, added_lines_from_patch, as_lines, filter_findings_to_changed_lines, has_next, link_header_has_next,
    owned_foxguard_summary_comment_ids, owned_marker, plan_review, positions_fit,
    review_summary_body, review_text, summary_action, touches, ChangedFile, IssueComment,
    PostReviewOutcome, RepositoryPath, SourceRevision, SummaryAction, PAGE_SIZE,
};
use crate::text::{decimal, decimal_string, digits_read_back, lines_of, owned};
use vstd::prelude::*;

verus! {

#[derive(Debug, Clone, Copy, PartialEq, Eq, Structural)]
pub enum ApiMethod {
    Get,
    Post,
    Patch,
    Delete,
}

/// One request to the interface. Its path stands below the base address; its body is the text of a
/// comment.
#[derive(Debug, PartialEq, Eq)]
pub struct ApiRequest {
    pub method: ApiMethod,
    pub path: String,
    pub body: Option<String>,
}

#[verifier::ext_equal]
pub struct RequestView {
    pub method: ApiMethod,
    pub path: Seq<char>,
    pub body: Option<Seq<char>>,
}

impl View for ApiRequest {
    type V = RequestView;

    open spec fn view(&self) -> RequestView {
        RequestView {
            method: self.method,
            path: self.path@,
            body: match self.body {
                Some(b) => Some(b@),
                None => None,
            },
        }
    }
}

pub open spec fn request_views(v: Seq<ApiRequest>) -> Seq<RequestView> {
    v.map_values(|r: ApiRequest| r@)
}

// ---------------------------------------------------------------------------
// Paths
// ---------------------------------------------------------------------------

/// What comments are attached to: lines of the change, or the pull request as a whole.
#[derive(Debug, Clone, Copy, PartialEq, Eq, Structural)]
pub enum CommentKind {
    Inline,
    Summary,
}

pub open spec fn kind_text(kind: CommentKind) -> Seq<char> {
    match kind {
        CommentKind::Inline => "/pulls/"@,
        CommentKind::Summary => "/issues/"@,
    }
}

pub open spec fn repository_place(repo: RepositoryPath) -> Seq<char> {
    "repos/"@ + repo.owner@ + "/"@ + repo.name@
}

/// Where one comment stands.
pub open spec fn comment_place(repo: RepositoryPath, kind: CommentKind, id: u64) -> Seq<char> {
    repository_place(repo) + kind_text(kind) + "comments/"@ + decimal(id as nat)
}

/// Where the comments of a pull request are listed and made.
pub open spec fn comments_place(repo: RepositoryPath, kind: CommentKind, number: u64) -> Seq<char> {
    repository_place(repo) + kind_text(kind) + decimal(number as nat) + "/comments"@
}

impl CommentKind {
    fn path(self) -> (r: &'static str)
        ensures
            r@ == kind_text(self),
    {
        match self {
            CommentKind::Inline => "/pulls/",
            CommentKind::Summary => "/issues/",
        }
    }
}

fn repository_path(repo: &RepositoryPath) -> (r: String)
    ensures
        r@ == repository_place(*repo),
{
    let mut path: String = owned("repos/");
    path.append(repo.owner.as_str());
    path.append("/");
    path.append(repo.name.as_str());
    path
}

fn comment_path(repo: &RepositoryPath, kind: CommentKind, id: u64) -> (r: String)
    ensures
        r@ == comment_place(*repo, kind, id),
{
    let mut path: String = repository_path(repo);
    path.append(kind.path());
    path.append("comments/");
    let digits = decimal_string(id);
    path.append(digits.as_str());
    path
}

/// Where the comments of a pull request are listed and made.
pub fn comments_path(repo: &RepositoryPath, kind: CommentKind, number: u64) -> (r: String)
    ensures
        r@ == comments_place(*repo, kind, number),
{
    let mut path: String = repository_path(repo);
    path.append(kind.path());
    let digits = decimal_string(number);
    path.append(digits.as_str());
    path.append("/comments");
    path
}

/// Where the files that a pull request changes are listed.
pub fn changed_files_path(repo: &RepositoryPath, number: u64) -> (r: String)
    ensures
        r@ == repository_place(*repo) + "/pulls/"@ + decimal(number as nat) + "/files"@,
{
    let mut path: String = repository_path(repo);
    path.append("/pulls/");
    let digits = decimal_string(number);
    path.append(digits.as_str());
    path.append("/files");
    path
}

/// Where check runs are made.
pub fn check_runs_path(repo: &RepositoryPath) -> (r: String)
    ensures
        r@ == repository_place(*repo) + "/check-runs"@,
{
    let mut path: String = repository_path(repo);
    path.append("/check-runs");
    path
}

// ---------------------------------------------------------------------------
// Listings
// ---------------------------------------------------------------------------

/// A listing that comes page by page.
#[derive(Debug, PartialEq, Eq)]
pub struct Listing<T> {
    pub items: Vec<T>,
    /// The page that is asked for next.
    pub page: u64,
    pub complete: bool,
}

/// The answer says that another page follows.
pub open spec fn another_follows(link: Option<&str>) -> bool {
    link matches Some(header) && has_next(header@)
}

impl<T> Listing<T> {
    pub fn new() -> (r: Self)
        ensures
            r.items@ == Seq::<T>::empty(),
            r.page == 1,
            !r.complete,
    {
        Listing { items: Vec::new(), page: 1, complete: false }
    }

    /// Where the next page of the listing at `endpoint` stands.
    pub fn path(&self, endpoint: &str) -> (r: String)
        ensures
            r@ == endpoint@ + "?per_page="@ + decimal(PAGE_SIZE as nat) + "&page="@ + decimal(
                self.page as nat,
            ),
    {
        let mut path: String = owned(endpoint);
        path.append("?per_page=");
        let size = decimal_string(PAGE_SIZE as u64);
        path.append(size.as_str());
        path.append("&page=");
        let digits = decimal_string(self.page);
        path.append(digits.as_str());
        path
    }

    /// Takes up a page, and the `Link` header that came with it.
    ///
    /// Only the header says whether a page is the last: one that is not full need not be.
    pub fn take_page(&mut self, items: Vec<T>, link: Option<&str>)
        requires
            old(self).page < u64::MAX,
        ensures
            final(self).items@ == old(self).items@ + items@,
            final(self).complete == !another_follows(link),
            final(self).page == if another_follows(link) {
                (old(self).page + 1) as u64
            } else {
                old(self).page
            },
    {
        let mut items = items;
        self.items.append(&mut items);
        let more = match link {
            Some(header) => link_header_has_next(header),
            None => false,
        };
        if more {
            self.page = self.page + 1;
        }
        self.complete = !more;
    }
}

/// A changed file of a pull request, as it is listed.
#[derive(Debug, PartialEq, Eq)]
pub struct PullRequestFile {
    pub filename: String,
    pub patch: Option<String>,
}

/// The lines that a listed file gains; a file without a patch gains none that are known.
pub open spec fn gained_lines(patch: Option<String>) -> Seq<usize> {
    match patch {
        Some(p) => as_lines(added_lines(lines_of(p@), lines_of(p@).len() as int)),
        None => Seq::empty(),
    }
}

/// The lines that a pull request adds to each file that it changes. A file without a patch stays,
/// with no lines.
pub fn commentable_lines(files: Vec<PullRequestFile>) -> (r: Vec<ChangedFile>)
    requires
        forall|i: int|
            0 <= i < files@.len() ==> (#[trigger] files@[i].patch matches Some(p) ==> positions_fit(
                lines_of(p@),
            )),
    ensures
        r@.len() == files@.len(),
        forall|i: int|
            0 <= i < r@.len() ==> (#[trigger] r@[i]).file@ == files@[i].filename@ && r@[i].lines@
                == gained_lines(files@[i].patch),
{
    let mut r: Vec<ChangedFile> = Vec::new();
    let mut i: usize = 0;
    while i < files.len()
        invariant
            i <= files@.len(),
            r@.len() == i,
            forall|k: int|
                0 <= k < files@.len() ==> (#[trigger] files@[k].patch matches Some(p) ==>
                    positions_fit(lines_of(p@))),
            forall|k: int|
                0 <= k < i ==> (#[trigger] r@[k]).file@ == files@[k].filename@ && r@[k].lines@
                    == gained_lines(files@[k].patch),
        decreases files@.len() - i,
    {
        let file = &files[i];
        let lines = match &file.patch {
            Some(patch) => {
                match added_lines_from_patch(Some(patch.as_str())) {
                    Some(lines) => lines,
                    None => Vec::new(),
                }
            },
            None => Vec::new(),
        };
        assert(lines@ =~= gained_lines(files@[i as int].patch));
        r.push(ChangedFile { file: file.filename.clone(), lines });
        i = i + 1;
    }
    r
}

// ---------------------------------------------------------------------------
// Reviews
// ---------------------------------------------------------------------------

/// The ids of the comments that the app made with the marker.
pub open spec fn owned_ids(comments: Seq<IssueComment>, app_id: u64) -> Seq<u64> {
    comments.filter(|c: IssueComment| owned_marker(c, app_id)).map_values(|c: IssueComment| c.id)
}

/// All but the last.
pub open spec fn all_but_last(ids: Seq<u64>) -> Seq<u64> {
    if ids.len() > 0 {
        ids.drop_last()
    } else {
        ids
    }
}

pub open spec fn deletion(repo: RepositoryPath, kind: CommentKind, id: u64) -> RequestView {
    RequestView { method: ApiMethod::Delete, path: comment_place(repo, kind, id), body: None }
}

pub open spec fn deletions(repo: RepositoryPath, kind: CommentKind, ids: Seq<u64>) -> Seq<
    RequestView,
> {
    ids.map_values(|id: u64| deletion(repo, kind, id))
}

/// The requests that put the one message in place.
pub open spec fn summary_requests(
    repo: RepositoryPath,
    number: u64,
    action: SummaryAction,
    body: Seq<char>,
) -> Seq<RequestView> {
    match action {
        SummaryAction::Nothing => Seq::empty(),
        SummaryAction::Create => seq![
            RequestView {
                method: ApiMethod::Post,
                path: comments_place(repo, CommentKind::Summary, number),
                body: Some(body),
            },
        ],
        SummaryAction::Update(id) => seq![
            RequestView {
                method: ApiMethod::Patch,
                path: comment_place(repo, CommentKind::Summary, id),
                body: Some(body),
            },
        ],
    }
}

/// The requests that show the findings: the message first, then what it replaces goes.
pub open spec fn review_plan(
    repo: RepositoryPath,
    number: u64,
    inline: Seq<u64>,
    summaries: Seq<u64>,
    findings: Seq<FindingView>,
    source: SourceRevision,
) -> Seq<RequestView> {
    summary_requests(
        repo,
        number,
        summary_action(summaries, findings.len()),
        review_text(findings, source),
    ) + deletions(repo, CommentKind::Summary, all_but_last(summaries)) + deletions(
        repo,
        CommentKind::Inline,
        inline,
    )
}

fn add_deletions(
    requests: &mut Vec<ApiRequest>,
    repo: &RepositoryPath,
    kind: CommentKind,
    ids: &Vec<u64>,
)
    ensures
        request_views(final(requests)@) == request_views(old(requests)@) + deletions(
            *repo,
            kind,
            ids@,
        ),
{
    let ghost before = request_views(requests@);
    let mut i: usize = 0;
    assert(before =~= before + deletions(*repo, kind, ids@.take(0)));
    while i < ids.len()
        invariant
            i <= ids@.len(),
            request_views(requests@) == before + deletions(*repo, kind, ids@.take(i as int)),
        decreases ids@.len() - i,
    {
        let request = ApiRequest {
            method: ApiMethod::Delete,
            path: comment_path(repo, kind, ids[i]),
            body: None,
        };
        proof {
            assert(request@ =~= deletion(*repo, kind, ids@[i as int]));
            assert(request_views(requests@.push(request)) =~= request_views(requests@).push(
                request@,
            ));
            assert(deletions(*repo, kind, ids@.take(i + 1)) =~= deletions(
                *repo,
                kind,
                ids@.take(i as int),
            ).push(request@));
        }
        requests.push(request);
        i = i + 1;
        assert(request_views(requests@) =~= before + deletions(*repo, kind, ids@.take(i as int)));
    }
    assert(ids@.take(i as int) =~= ids@);
}

/// Decides, from the comments that stand on a pull request, which requests show the findings on
/// its changed lines, and what is reported once they are made.
///
/// One message sums the findings up: the last that the app made is kept and rewritten, and without
/// one a message is made where there is something to say. Only comments that carry the marker and
/// that the app made itself are deleted.
pub fn review_requests(
    repo: &RepositoryPath,
    number: u64,
    app_id: u64,
    inline_comments: Vec<IssueComment>,
    summary_comments: Vec<IssueComment>,
    findings: &[Finding],
    changed_lines: &Vec<ChangedFile>,
    source_revision: &SourceRevision,
) -> (r: (Vec<ApiRequest>, PostReviewOutcome))
    ensures
        ({
            let shown = finding_views(findings@).filter(touches(changed_lines@));
            let inline = owned_ids(inline_comments@, app_id);
            let summaries = owned_ids(summary_comments@, app_id);
            &&& request_views(r.0@) == review_plan(
                *repo,
                number,
                inline,
                summaries,
                shown,
                *source_revision,
            )
            &&& r.1.deleted_comments == inline.len()
            &&& r.1.review_messages == if summaries.len() > 0 || shown.len() > 0 {
                1usize
            } else {
                0usize
            }
        }),
{
    let shown = filter_findings_to_changed_lines(findings, changed_lines);
    let inline = owned_foxguard_summary_comment_ids(inline_comments, app_id);
    let summaries = owned_foxguard_summary_comment_ids(summary_comments, app_id);
    assert(finding_views(shown@).len() == shown@.len());
    let plan = plan_review(summaries, shown.len());
    let body = review_summary_body(shown.as_slice(), source_revision);
    let mut requests: Vec<ApiRequest> = Vec::new();
    let ghost text = body@;
    match plan.summary {
        SummaryAction::Nothing => {},
        SummaryAction::Create => {
            let path = comments_path(repo, CommentKind::Summary, number);
            requests.push(ApiRequest { method: ApiMethod::Post, path, body: Some(body) });
        },
        SummaryAction::Update(id) => {
            let path = comment_path(repo, CommentKind::Summary, id);
            requests.push(ApiRequest { method: ApiMethod::Patch, path, body: Some(body) });
        },
    }
    assert(request_views(requests@) =~= summary_requests(*repo, number, plan.summary, text));
    add_deletions(&mut requests, repo, CommentKind::Summary, &plan.delete_summaries);
    add_deletions(&mut requests, repo, CommentKind::Inline, &inline);
    let outcome = plan.outcome(inline.len());
    (requests, outcome)
}

/// Whether the changed files have to be listed before the findings can be shown: there are findings,
/// and the lines are not known yet.
pub fn needs_changed_files(findings: &[Finding], changed_lines_known: bool) -> (r: bool)
    ensures
        r == (findings@.len() > 0 && !changed_lines_known),
{
    findings.len() > 0 && !changed_lines_known
}

// ---------------------------------------------------------------------------
// Laws
// ---------------------------------------------------------------------------

proof fn lemma_places_are_apart(repo: RepositoryPath, a: CommentKind, x: u64, b: CommentKind, y: u64)
    ensures
        comment_place(repo, a, x) == comment_place(repo, b, y) ==> a == b && x == y,
{
    if comment_place(repo, a, x) == comment_place(repo, b, y) {
        let root = repository_place(repo);
        let p = comment_place(repo, a, x);
        let q = comment_place(repo, b, y);
        reveal_strlit("/pulls/");
        reveal_strlit("/issues/");
        reveal_strlit("comments/");
        if a != b {
            assert(p[root.len() as int + 1] == kind_text(a)[1]);
            assert(q[root.len() as int + 1] == kind_text(b)[1]);
            assert(false);
        }
        let n = (root + kind_text(a) + "comments/"@).len() as int;
        assert(p.subrange(n, p.len() as int) =~= decimal(x as nat));
        assert(q.subrange(n, q.len() as int) =~= decimal(y as nat));
        digits_read_back(x as nat);
        digits_read_back(y as nat);
    }
}

/// A comment that the app did not make, or that carries no marker, is neither deleted nor
/// rewritten, whatever the findings are.
pub proof fn comments_of_others_are_left_alone(
    repo: RepositoryPath,
    number: u64,
    inline: Seq<u64>,
    summaries: Seq<u64>,
    findings: Seq<FindingView>,
    source: SourceRevision,
    kind: CommentKind,
    id: u64,
    i: int,
)
    requires
        0 <= i < review_plan(repo, number, inline, summaries, findings, source).len(),
        kind is Inline ==> !inline.contains(id),
        kind is Summary ==> !summaries.contains(id),
        !(review_plan(repo, number, inline, summaries, findings, source)[i].method is Post),
    ensures
        review_plan(repo, number, inline, summaries, findings, source)[i].path != comment_place(
            repo,
            kind,
            id,
        ),
{
    let action = summary_action(summaries, findings.len());
    let first = summary_requests(repo, number, action, review_text(findings, source));
    let second = deletions(repo, CommentKind::Summary, all_but_last(summaries));
    if i < first.len() {
        assert(summaries.contains(summaries.last()));
        lemma_places_are_apart(repo, kind, id, CommentKind::Summary, summaries.last());
    } else if i < first.len() + second.len() {
        let k = i - first.len();
        assert(all_but_last(summaries)[k] == summaries[k]);
        assert(summaries.contains(summaries[k]));
        lemma_places_are_apart(repo, kind, id, CommentKind::Summary, summaries[k]);
    } else {
        let k = i - first.len() - second.len();
        assert(inline.contains(inline[k]));
        lemma_places_are_apart(repo, kind, id, CommentKind::Inline, inline[k]);
    }
}

/// However many messages the app left on a pull request, a review leaves one of them, rewritten,
/// and deletes each of the others.
pub proof fn summaries_come_down_to_one(
    repo: RepositoryPath,
    number: u64,
    inline: Seq<u64>,
    summaries: Seq<u64>,
    findings: Seq<FindingView>,
    source: SourceRevision,
    k: int,
)
    requires
        summaries.no_duplicates(),
        0 <= k < summaries.len(),
    ensures
        review_plan(repo, number, inline, summaries, findings, source)[0] == (RequestView {
            method: ApiMethod::Patch,
            path: comment_place(repo, CommentKind::Summary, summaries.last()),
            body: Some(review_text(findings, source)),
        }),
        review_plan(repo, number, inline, summaries, findings, source).contains(
            deletion(repo, CommentKind::Summary, summaries[k]),
        ) <==> k < summaries.len() - 1,
{
    let plan = review_plan(repo, number, inline, summaries, findings, source);
    let gone = deletion(repo, CommentKind::Summary, summaries[k]);
    if k < summaries.len() - 1 {
        assert(plan[1 + k] == gone);
    } else if plan.contains(gone) {
        let i = choose|i: int| 0 <= i < plan.len() && plan[i] == gone;
        if 0 < i < summaries.len() {
            lemma_places_are_apart(
                repo,
                CommentKind::Summary,
                summaries[k],
                CommentKind::Summary,
                summaries[i - 1],
            );
        } else if i >= summaries.len() {
            lemma_places_are_apart(
                repo,
                CommentKind::Summary,
                summaries[k],
                CommentKind::Inline,
                inline[i - summaries.len()],
            );
        }
    }
}

} // verus!
