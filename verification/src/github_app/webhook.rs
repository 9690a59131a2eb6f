//! What the receiver does with a webhook delivery.

use crate::finding::copy_opt;
use crate::github_app::dispatcher::{
    target_repository, DispatchOutcome, GitHubPullRequest, GitHubRepository, KeyView, PullRequestJob,
    PullRequestKey, PullView, RepositoryView,
};
use crate::github_app::lifecycle::PullRequestProcessError;
use crate::text::{lemma_texts_push, opt_text, owned, same, texts};
use vstd::prelude::*;

verus! {

/// The largest body that is read.
pub const MAX_BODY_BYTES: usize = 1_048_576;

pub const ACCEPTED: u16 = 202;

pub const BAD_REQUEST: u16 = 400;

pub const UNAUTHORIZED: u16 = 401;

pub const SERVICE_UNAVAILABLE: u16 = 503;

#[derive(Debug, Clone, Copy, PartialEq, Eq, Structural)]
pub enum EventKind {
    Ping,
    Installation,
    PullRequest,
    Other,
}

pub open spec fn kind_of(event: Seq<char>) -> EventKind {
    if event == "ping"@ {
        EventKind::Ping
    } else if event == "installation"@ || event == "installation_repositories"@ {
        EventKind::Installation
    } else if event == "pull_request"@ {
        EventKind::PullRequest
    } else {
        EventKind::Other
    }
}

impl EventKind {
    /// The kind that the event header names.
    pub fn from_header(event: &str) -> (r: Self)
        ensures
            r == kind_of(event@),
    {
        if same(event, "ping") {
            EventKind::Ping
        } else if same(event, "installation") || same(event, "installation_repositories") {
            EventKind::Installation
        } else if same(event, "pull_request") {
            EventKind::PullRequest
        } else {
            EventKind::Other
        }
    }
}

#[derive(Debug, PartialEq, Eq)]
pub struct GitHubAccount {
    pub id: Option<u64>,
    pub login: Option<String>,
    pub kind: Option<String>,
}

#[derive(Debug, PartialEq, Eq)]
pub struct GitHubInstallation {
    pub id: u64,
    pub account: Option<GitHubAccount>,
    pub repository_selection: Option<String>,
}

#[derive(Debug, PartialEq, Eq)]
pub struct GitHubRepositorySummary {
    pub full_name: String,
}

/// What a delivery's body says.
#[derive(Debug, PartialEq, Eq)]
pub struct GitHubWebhookPayload {
    pub action: Option<String>,
    pub installation: Option<GitHubInstallation>,
    pub pull_request: Option<GitHubPullRequest>,
    pub repository: Option<GitHubRepository>,
    pub repositories: Option<Vec<GitHubRepositorySummary>>,
    pub repositories_added: Option<Vec<GitHubRepositorySummary>>,
    pub repositories_removed: Option<Vec<GitHubRepositorySummary>>,
}

/// The actions that change what a pull request holds or is ready for.
pub open spec fn code_changing(action: Seq<char>) -> bool {
    ||| action == "opened"@
    ||| action == "reopened"@
    ||| action == "synchronize"@
    ||| action == "ready_for_review"@
}

/// Whether a pull request is scanned after the given action.
pub fn should_process_pull_request_action(action: &str) -> (r: bool)
    ensures
        r == code_changing(action@),
{
    same(action, "opened") || same(action, "reopened") || same(action, "synchronize") || same(
        action,
        "ready_for_review",
    )
}

pub open spec fn opt_pull(p: Option<GitHubPullRequest>) -> Option<PullView> {
    match p {
        Some(x) => Some(x@),
        None => None,
    }
}

pub open spec fn opt_repository(p: Option<GitHubRepository>) -> Option<RepositoryView> {
    match p {
        Some(x) => Some(x@),
        None => None,
    }
}

/// The pull request that a delivery is about.
pub open spec fn payload_key(payload: GitHubWebhookPayload) -> Option<KeyView> {
    match opt_pull(payload.pull_request) {
        None => None,
        Some(p) => Some(
            KeyView {
                repository: target_repository(p, opt_repository(payload.repository)).full_name,
                number: p.number,
            },
        ),
    }
}

/// The pull request that a delivery is about.
pub fn pull_request_key(payload: &GitHubWebhookPayload) -> (r: Option<PullRequestKey>)
    ensures
        match r {
            Some(k) => payload_key(*payload) == Some(k@),
            None => payload_key(*payload) is None,
        },
{
    match &payload.pull_request {
        None => None,
        Some(pull_request) => {
            let repository: String = match &payload.repository {
                Some(r) => r.full_name.clone(),
                None => pull_request.head.repo.full_name.clone(),
            };
            Some(PullRequestKey { repository, number: pull_request.number })
        },
    }
}

/// The names of the repositories.
pub open spec fn names_of(repositories: Option<Vec<GitHubRepositorySummary>>) -> Seq<Seq<char>> {
    match repositories {
        Some(v) => v@.map_values(|r: GitHubRepositorySummary| r.full_name@),
        None => Seq::empty(),
    }
}

/// The names of the repositories.
pub fn repository_names(repositories: &Option<Vec<GitHubRepositorySummary>>) -> (r: Vec<String>)
    ensures
        texts(r@) == names_of(*repositories),
{
    let mut r: Vec<String> = Vec::new();
    match repositories {
        None => {
            assert(texts(r@) =~= Seq::<Seq<char>>::empty());
        },
        Some(v) => {
            let mut i: usize = 0;
            while i < v.len()
                invariant
                    i <= v@.len(),
                    texts(r@) =~= v@.take(i as int).map_values(
                        |r: GitHubRepositorySummary| r.full_name@,
                    ),
                decreases v@.len() - i,
            {
                let name = v[i].full_name.clone();
                proof {
                    lemma_texts_push(r@, name);
                }
                r.push(name);
                i = i + 1;
            }
            assert(v@.take(i as int) =~= v@);
        },
    }
    r
}

/// What is recorded of an installation.
#[derive(Debug, PartialEq, Eq)]
pub struct InstallationMetadataInput {
    pub installation_id: u64,
    pub account_login: Option<String>,
    pub account_id: Option<u64>,
    pub account_type: Option<String>,
    pub repository_selection: Option<String>,
    pub repositories: Vec<String>,
}

/// How an installation event changes what is recorded.
#[derive(Debug, PartialEq, Eq)]
pub enum InstallationChange {
    Remove(u64),
    AddRepositories(u64, Vec<String>),
    RemoveRepositories(u64, Vec<String>),
    Upsert(InstallationMetadataInput),
}

/// The change that an installation event with the given action makes.
pub open spec fn changes_installation(
    change: InstallationChange,
    payload: GitHubWebhookPayload,
    installation: GitHubInstallation,
) -> bool {
    let action = opt_text(payload.action);
    if action == Some("deleted"@) {
        change == InstallationChange::Remove(installation.id)
    } else if action == Some("added"@) {
        change matches InstallationChange::AddRepositories(id, names) && id == installation.id
            && texts(names@) == names_of(payload.repositories_added)
    } else if action == Some("removed"@) {
        change matches InstallationChange::RemoveRepositories(id, names) && id == installation.id
            && texts(names@) == names_of(payload.repositories_removed)
    } else {
        &&& change matches InstallationChange::Upsert(input)
        &&& input.installation_id == installation.id
        &&& opt_text(input.account_login) == match installation.account {
            Some(a) => opt_text(a.login),
            None => None,
        }
        &&& input.account_id == match installation.account {
            Some(a) => a.id,
            None => None,
        }
        &&& opt_text(input.account_type) == match installation.account {
            Some(a) => opt_text(a.kind),
            None => None,
        }
        &&& opt_text(input.repository_selection) == opt_text(installation.repository_selection)
        &&& texts(input.repositories@) == names_of(payload.repositories)
    }
}

fn is_text(o: &Option<String>, s: &str) -> (r: bool)
    ensures
        r == (opt_text(*o) == Some(s@)),
{
    match o {
        Some(t) => same(t.as_str(), s),
        None => false,
    }
}

/// Decides how an installation event changes what is recorded.
pub fn persist_installation_event(payload: &GitHubWebhookPayload) -> (r: Result<
    InstallationChange,
    String,
>)
    ensures
        match payload.installation {
            None => r matches Err(e) && e@ == "installation payload missing installation.id"@,
            Some(installation) => r matches Ok(change) && changes_installation(
                change,
                *payload,
                installation,
            ),
        },
{
    let installation = match &payload.installation {
        Some(i) => i,
        None => {
            return Err(owned("installation payload missing installation.id"));
        },
    };
    if is_text(&payload.action, "deleted") {
        return Ok(InstallationChange::Remove(installation.id));
    }
    proof {
        reveal_strlit("deleted");
        reveal_strlit("added");
        reveal_strlit("removed");
    }
    if is_text(&payload.action, "added") {
        return Ok(
            InstallationChange::AddRepositories(
                installation.id,
                repository_names(&payload.repositories_added),
            ),
        );
    }
    if is_text(&payload.action, "removed") {
        return Ok(
            InstallationChange::RemoveRepositories(
                installation.id,
                repository_names(&payload.repositories_removed),
            ),
        );
    }
    let (account_login, account_id, account_type): (Option<String>, Option<u64>, Option<String>) =
        match &installation.account {
        Some(account) => (copy_opt(&account.login), account.id, copy_opt(&account.kind)),
        None => (None, None, None),
    };
    Ok(
        InstallationChange::Upsert(
            InstallationMetadataInput {
                installation_id: installation.id,
                account_login,
                account_id,
                account_type,
                repository_selection: copy_opt(&installation.repository_selection),
                repositories: repository_names(&payload.repositories),
            },
        ),
    )
}

// ---------------------------------------------------------------------------
// Answering a delivery
// ---------------------------------------------------------------------------

/// What is learned of a delivery.
#[derive(Debug)]
pub enum WebhookEvent {
    /// It came in; whether it carries a signature.
    Received { signed: bool },
    /// The body is larger than is taken in, so that nothing can be checked against it.
    Oversized,
    /// The signature was checked against the body; the kind that the event header names.
    Verified { genuine: bool, kind: EventKind },
    /// The body of an installation event was read, if it could be.
    InstallationRead { valid: bool, has_installation: bool, deleted: bool },
    /// The body of a pull-request event was read, if it could be.
    PullRequestRead { valid: bool, processed: bool, has_installation: bool, has_key: bool },
    /// The delivery was to be accepted, once its head was found to be current.
    Decided(Result<DispatchOutcome, PullRequestProcessError>),
}

/// What is done with a delivery.
#[derive(Debug, Clone, Copy, PartialEq, Eq, Structural)]
pub enum WebhookAction {
    VerifySignature,
    ReadInstallation,
    ReadPullRequest,
    /// Forget the token of an installation that is gone.
    ForgetToken,
    PersistInstallation,
    /// Check that the head is current and accept the delivery.
    Decide,
    CreateQueuedCheck,
    Reconcile,
    Schedule,
    Respond(u16),
}

/// What is done with a delivery after what was learned of it, in order.
pub open spec fn webhook_plan(event: WebhookEvent) -> Seq<WebhookAction> {
    match event {
        WebhookEvent::Received { signed } => if signed {
            seq![WebhookAction::VerifySignature]
        } else {
            seq![WebhookAction::Respond(UNAUTHORIZED)]
        },
        WebhookEvent::Oversized => seq![WebhookAction::Respond(BAD_REQUEST)],
        WebhookEvent::Verified { genuine, kind } => if !genuine {
            seq![WebhookAction::Respond(UNAUTHORIZED)]
        } else {
            match kind {
                EventKind::Installation => seq![WebhookAction::ReadInstallation],
                EventKind::PullRequest => seq![WebhookAction::ReadPullRequest],
                EventKind::Ping => seq![WebhookAction::Respond(ACCEPTED)],
                EventKind::Other => seq![WebhookAction::Respond(ACCEPTED)],
            }
        },
        WebhookEvent::InstallationRead { valid, has_installation, deleted } => if !valid {
            seq![WebhookAction::Respond(BAD_REQUEST)]
        } else if has_installation {
            if deleted {
                seq![
                    WebhookAction::ForgetToken,
                    WebhookAction::PersistInstallation,
                    WebhookAction::Respond(ACCEPTED),
                ]
            } else {
                seq![WebhookAction::PersistInstallation, WebhookAction::Respond(ACCEPTED)]
            }
        } else {
            seq![WebhookAction::Respond(ACCEPTED)]
        },
        WebhookEvent::PullRequestRead { valid, processed, has_installation, has_key } => if !valid {
            seq![WebhookAction::Respond(BAD_REQUEST)]
        } else if processed && has_installation && has_key {
            seq![WebhookAction::Decide]
        } else {
            seq![WebhookAction::Respond(ACCEPTED)]
        },
        WebhookEvent::Decided(Ok(DispatchOutcome::DuplicateDelivery)) => seq![
            WebhookAction::Schedule,
            WebhookAction::Respond(ACCEPTED),
        ],
        WebhookEvent::Decided(Ok(DispatchOutcome::Accepted { .. })) => seq![
            WebhookAction::CreateQueuedCheck,
            WebhookAction::Reconcile,
            WebhookAction::Schedule,
            WebhookAction::Respond(ACCEPTED),
        ],
        WebhookEvent::Decided(Err(PullRequestProcessError::StaleHead { .. })) => seq![
            WebhookAction::Respond(ACCEPTED),
        ],
        WebhookEvent::Decided(Err(_)) => seq![WebhookAction::Respond(SERVICE_UNAVAILABLE)],
    }
}

/// Decides what is done with a delivery after what was learned of it, in order.
pub fn plan_webhook(event: &WebhookEvent) -> (r: Vec<WebhookAction>)
    ensures
        r@ == webhook_plan(*event),
{
    let mut r: Vec<WebhookAction> = Vec::new();
    match event {
        WebhookEvent::Received { signed } => {
            if *signed {
                r.push(WebhookAction::VerifySignature);
            } else {
                r.push(WebhookAction::Respond(UNAUTHORIZED));
            }
        },
        WebhookEvent::Oversized => {
            r.push(WebhookAction::Respond(BAD_REQUEST));
        },
        WebhookEvent::Verified { genuine, kind } => {
            if !*genuine {
                r.push(WebhookAction::Respond(UNAUTHORIZED));
            } else {
                match *kind {
                    EventKind::Installation => {
                        r.push(WebhookAction::ReadInstallation);
                    },
                    EventKind::PullRequest => {
                        r.push(WebhookAction::ReadPullRequest);
                    },
                    EventKind::Ping | EventKind::Other => {
                        r.push(WebhookAction::Respond(ACCEPTED));
                    },
                }
            }
        },
        WebhookEvent::InstallationRead { valid, has_installation, deleted } => {
            if !*valid {
                r.push(WebhookAction::Respond(BAD_REQUEST));
            } else {
                if *has_installation {
                    if *deleted {
                        r.push(WebhookAction::ForgetToken);
                    }
                    r.push(WebhookAction::PersistInstallation);
                }
                r.push(WebhookAction::Respond(ACCEPTED));
            }
        },
        WebhookEvent::PullRequestRead { valid, processed, has_installation, has_key } => {
            if !*valid {
                r.push(WebhookAction::Respond(BAD_REQUEST));
            } else if *processed && *has_installation && *has_key {
                r.push(WebhookAction::Decide);
            } else {
                r.push(WebhookAction::Respond(ACCEPTED));
            }
        },
        WebhookEvent::Decided(Ok(DispatchOutcome::DuplicateDelivery)) => {
            r.push(WebhookAction::Schedule);
            r.push(WebhookAction::Respond(ACCEPTED));
        },
        WebhookEvent::Decided(Ok(DispatchOutcome::Accepted { .. })) => {
            r.push(WebhookAction::CreateQueuedCheck);
            r.push(WebhookAction::Reconcile);
            r.push(WebhookAction::Schedule);
            r.push(WebhookAction::Respond(ACCEPTED));
        },
        WebhookEvent::Decided(Err(PullRequestProcessError::StaleHead { .. })) => {
            r.push(WebhookAction::Respond(ACCEPTED));
        },
        WebhookEvent::Decided(Err(_)) => {
            r.push(WebhookAction::Respond(SERVICE_UNAVAILABLE));
        },
    }
    assert(r@ =~= webhook_plan(*event));
    r
}

/// What is learned from a pull-request event's body.
pub open spec fn pull_request_read(payload: GitHubWebhookPayload) -> WebhookEvent {
    WebhookEvent::PullRequestRead {
        valid: true,
        processed: code_changing(
            match opt_text(payload.action) {
                Some(a) => a,
                None => "?"@,
            },
        ),
        has_installation: payload.installation is Some,
        has_key: payload_key(payload) is Some,
    }
}

/// What is learned from a pull-request event's body.
pub fn read_pull_request(payload: &GitHubWebhookPayload) -> (r: WebhookEvent)
    ensures
        r == pull_request_read(*payload),
{
    let processed = match &payload.action {
        Some(a) => should_process_pull_request_action(a.as_str()),
        None => should_process_pull_request_action("?"),
    };
    WebhookEvent::PullRequestRead {
        valid: true,
        processed,
        has_installation: payload.installation.is_some(),
        has_key: payload.pull_request.is_some(),
    }
}

/// What is learned from an installation event's body.
pub fn read_installation(payload: &GitHubWebhookPayload) -> (r: WebhookEvent)
    ensures
        r == (WebhookEvent::InstallationRead {
            valid: true,
            has_installation: payload.installation is Some,
            deleted: opt_text(payload.action) == Some("deleted"@),
        }),
{
    WebhookEvent::InstallationRead {
        valid: true,
        has_installation: payload.installation.is_some(),
        deleted: is_text(&payload.action, "deleted"),
    }
}

/// The delivery that a pull-request event stands for.
pub fn delivery_of(payload: GitHubWebhookPayload, delivery: &str) -> (r: Option<PullRequestJob>)
    ensures
        match payload.installation {
            None => r is None,
            Some(installation) => match payload_key(payload) {
                None => r is None,
                Some(key) => {
                    &&& r matches Some(job)
                    &&& job.delivery@ == delivery@
                    &&& job.action@ == match opt_text(payload.action) {
                        Some(a) => a,
                        None => "?"@,
                    }
                    &&& job.installation_id == installation.id
                    &&& job.pull_request == payload.pull_request
                    &&& job.repository == payload.repository
                    &&& job.key@ == key
                },
            },
        },
{
    let key = match pull_request_key(&payload) {
        Some(k) => k,
        None => {
            return None;
        },
    };
    let installation_id: u64 = match &payload.installation {
        Some(i) => i.id,
        None => {
            return None;
        },
    };
    let action: String = match &payload.action {
        Some(a) => a.clone(),
        None => owned("?"),
    };
    Some(
        PullRequestJob {
            delivery: owned(delivery),
            action,
            installation_id,
            pull_request: payload.pull_request,
            repository: payload.repository,
            key,
        },
    )
}

/// The step answers the delivery.
pub open spec fn responds(a: WebhookAction) -> bool {
    a is Respond
}

/// A delivery without a genuine signature is answered with 401 and has no other effect.
pub proof fn forged_deliveries_do_nothing(kind: EventKind)
    ensures
        webhook_plan(WebhookEvent::Received { signed: false }) == seq![
            WebhookAction::Respond(401),
        ],
        webhook_plan(WebhookEvent::Verified { genuine: false, kind }) == seq![
            WebhookAction::Respond(401),
        ],
{
}

/// A body that is too large, or that cannot be read, is answered with 400 and has no other effect.
pub proof fn unreadable_deliveries_do_nothing(
    has_installation: bool,
    deleted: bool,
    processed: bool,
    has_key: bool,
)
    ensures
        webhook_plan(WebhookEvent::Oversized) == seq![WebhookAction::Respond(400)],
        webhook_plan(
            WebhookEvent::InstallationRead { valid: false, has_installation, deleted },
        ) == seq![WebhookAction::Respond(400)],
        webhook_plan(
            WebhookEvent::PullRequestRead { valid: false, processed, has_installation, has_key },
        ) == seq![WebhookAction::Respond(400)],
{
}

/// Each delivery is answered once, as the last thing that is done with it, and only a genuine
/// pull-request event that could not be decided on is refused with 503, so that it is sent again.
pub proof fn every_delivery_is_answered_once(event: WebhookEvent)
    ensures
        webhook_plan(event).len() > 0,
        forall|i: int|
            0 <= i < webhook_plan(event).len() - 1 ==> !responds(#[trigger] webhook_plan(event)[i]),
        responds(webhook_plan(event).last()) || webhook_plan(event).last() is VerifySignature
            || webhook_plan(event).last() is ReadInstallation || webhook_plan(
            event,
        ).last() is ReadPullRequest || webhook_plan(event).last() is Decide,
        webhook_plan(event).contains(WebhookAction::Respond(SERVICE_UNAVAILABLE)) ==> (event
            matches WebhookEvent::Decided(Err(e)) && !(e is StaleHead)),
{
    let plan = webhook_plan(event);
    if plan.contains(WebhookAction::Respond(SERVICE_UNAVAILABLE)) {
        let i = choose|i: int|
            0 <= i < plan.len() && plan[i] == WebhookAction::Respond(SERVICE_UNAVAILABLE);
        assert(plan[i] == WebhookAction::Respond(SERVICE_UNAVAILABLE));
    }
}

} // verus!
