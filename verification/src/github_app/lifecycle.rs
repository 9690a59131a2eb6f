//! What a worker does with a job, step by step, and how check runs follow the jobs.
//!
//! Each step is decided here from the job and from what the previous step brought; the caller
//! carries the step out and reports back.

use crate::github_app::pull_request_job_store::{
    CheckRunAttachment, CheckRunCreationState, JobView, StoredPullRequestJob,
};
use crate::text::{owned, same};
use vstd::prelude::*;

verus! {

/// The id under which a delivery's check run is found again.
pub open spec fn external_id(delivery: Seq<char>) -> Seq<char> {
    "foxguard-pr-scan:"@ + delivery
}

/// The id under which a delivery's check run is found again.
pub fn check_run_external_id(delivery_id: &str) -> (r: String)
    ensures
        r@ == external_id(delivery_id@),
{
    let mut s: String = owned("foxguard-pr-scan:");
    s.append(delivery_id);
    s
}

fn with_cause(what: &str, cause: &str) -> (r: String)
    ensures
        r@ == what@ + cause@,
{
    let mut s: String = owned(what);
    s.append(cause);
    s
}

// ---------------------------------------------------------------------------
// Errors of processing
// ---------------------------------------------------------------------------

/// Why a delivery was not processed to its end.
#[derive(Debug, PartialEq, Eq)]
pub enum PullRequestProcessError {
    Failed(String),
    /// The work is done, but its check run could not be finished: the job stays open.
    CheckUpdateFailed(String),
    StaleHead { expected: String, actual: String },
    Superseded,
}

impl PullRequestProcessError {
    pub open spec fn text(&self) -> Seq<char> {
        match self {
            PullRequestProcessError::Failed(e) => e@,
            PullRequestProcessError::CheckUpdateFailed(e) =>
                "terminal pull_request check update failed: "@ + e@,
            PullRequestProcessError::StaleHead { expected, actual } =>
                "pull_request head changed from queued "@ + expected@ + " to authoritative "@
                + actual@,
            PullRequestProcessError::Superseded => "pull_request delivery was superseded"@,
        }
    }

    /// The error in words.
    pub fn message(&self) -> (r: String)
        ensures
            r@ == self.text(),
    {
        match self {
            PullRequestProcessError::Failed(e) => e.clone(),
            PullRequestProcessError::CheckUpdateFailed(e) => with_cause(
                "terminal pull_request check update failed: ",
                e.as_str(),
            ),
            PullRequestProcessError::StaleHead { expected, actual } => {
                let mut s: String = owned("pull_request head changed from queued ");
                s.append(expected.as_str());
                s.append(" to authoritative ");
                s.append(actual.as_str());
                s
            },
            PullRequestProcessError::Superseded => owned("pull_request delivery was superseded"),
        }
    }
}

/// Checks that a delivery is about the head that the pull request has now.
pub fn validate_authoritative_pull_request_head(expected: &str, actual: String) -> (r: Result<
    (),
    PullRequestProcessError,
>)
    ensures
        if actual@ == expected@ {
            r is Ok
        } else {
            r matches Err(PullRequestProcessError::StaleHead { expected: e, actual: a }) && e@
                == expected@ && a@ == actual@
        },
{
    if same(actual.as_str(), expected) {
        Ok(())
    } else {
        Err(PullRequestProcessError::StaleHead { expected: owned(expected), actual })
    }
}

// ---------------------------------------------------------------------------
// The worker
// ---------------------------------------------------------------------------

/// What a worker learns.
#[derive(Debug)]
pub enum WorkerEvent {
    /// The job was to be marked as running; `Ok(false)` where it no longer waits.
    Claimed(Result<bool, String>),
    /// The check run was to be shown as running; `Ok(false)` where the job is to be cancelled.
    Announced(Result<bool, String>),
    /// The pull request was scanned and reviewed; on success with the number of findings.
    Processed(Result<usize, PullRequestProcessError>),
    /// The check run of a job that failed with `error` was to be finished.
    FailureShown { error: String, outcome: Result<(), String> },
}

/// What a worker does next.
#[derive(Debug, PartialEq, Eq)]
pub enum WorkerAction<T> {
    /// Show the check run as running.
    Announce,
    /// Scan and review the pull request.
    Process,
    /// Finish the check run of a failed job.
    ShowFailure(T),
    /// Record the number of findings of a finished job.
    MarkCompleted(usize),
    MarkFailed(T),
    MarkRetryPending(T),
    MarkCancellationPending(T),
    /// Bring the check runs of jobs that are to be cancelled up to date.
    Reconcile,
    /// Give the pull request free again.
    Complete,
}

impl View for WorkerAction<String> {
    type V = WorkerAction<Seq<char>>;

    open spec fn view(&self) -> WorkerAction<Seq<char>> {
        match self {
            WorkerAction::Announce => WorkerAction::Announce,
            WorkerAction::Process => WorkerAction::Process,
            WorkerAction::ShowFailure(e) => WorkerAction::ShowFailure(e@),
            WorkerAction::MarkCompleted(n) => WorkerAction::MarkCompleted(*n),
            WorkerAction::MarkFailed(e) => WorkerAction::MarkFailed(e@),
            WorkerAction::MarkRetryPending(e) => WorkerAction::MarkRetryPending(e@),
            WorkerAction::MarkCancellationPending(e) => WorkerAction::MarkCancellationPending(e@),
            WorkerAction::Reconcile => WorkerAction::Reconcile,
            WorkerAction::Complete => WorkerAction::Complete,
        }
    }
}

pub open spec fn worker_views(v: Seq<WorkerAction<String>>) -> Seq<WorkerAction<Seq<char>>> {
    v.map_values(|a: WorkerAction<String>| a@)
}

/// Why a job is cancelled whose pull request has moved on.
pub open spec fn stale_reason(expected: Seq<char>, actual: Seq<char>) -> Seq<char> {
    "authoritative pull_request head changed from "@ + expected + " to "@ + actual
}

/// What a worker does after what it learned, in order.
pub open spec fn worker_plan(event: WorkerEvent) -> Seq<WorkerAction<Seq<char>>> {
    match event {
        WorkerEvent::Claimed(Ok(true)) => seq![WorkerAction::Announce],
        WorkerEvent::Claimed(_) => seq![WorkerAction::Complete],
        WorkerEvent::Announced(Ok(true)) => seq![WorkerAction::Process],
        WorkerEvent::Announced(Ok(false)) => seq![
            WorkerAction::Reconcile,
            WorkerAction::Complete,
        ],
        WorkerEvent::Announced(Err(e)) => seq![
            WorkerAction::MarkRetryPending(e@),
            WorkerAction::Complete,
        ],
        WorkerEvent::Processed(Ok(n)) => seq![
            WorkerAction::MarkCompleted(n),
            WorkerAction::Complete,
        ],
        WorkerEvent::Processed(Err(PullRequestProcessError::CheckUpdateFailed(e))) => seq![
            WorkerAction::MarkRetryPending(e@),
            WorkerAction::Complete,
        ],
        WorkerEvent::Processed(Err(PullRequestProcessError::StaleHead { expected, actual })) =>
            seq![
            WorkerAction::MarkCancellationPending(stale_reason(expected@, actual@)),
            WorkerAction::Reconcile,
            WorkerAction::Complete,
        ],
        WorkerEvent::Processed(Err(PullRequestProcessError::Superseded)) => seq![
            WorkerAction::Reconcile,
            WorkerAction::Complete,
        ],
        WorkerEvent::Processed(Err(PullRequestProcessError::Failed(e))) => seq![
            WorkerAction::ShowFailure(e@),
        ],
        WorkerEvent::FailureShown { error, outcome: Ok(_) } => seq![
            WorkerAction::MarkFailed(error@),
            WorkerAction::Complete,
        ],
        WorkerEvent::FailureShown { error: _, outcome: Err(e) } => seq![
            WorkerAction::MarkRetryPending(e@),
            WorkerAction::Complete,
        ],
    }
}

/// What a worker does after what it learned, in order.
pub fn plan_worker(event: WorkerEvent) -> (r: Vec<WorkerAction<String>>)
    ensures
        worker_views(r@) == worker_plan(event),
{
    let mut r: Vec<WorkerAction<String>> = Vec::new();
    match event {
        WorkerEvent::Claimed(Ok(true)) => {
            r.push(WorkerAction::Announce);
        },
        WorkerEvent::Claimed(_) => {
            r.push(WorkerAction::Complete);
        },
        WorkerEvent::Announced(Ok(true)) => {
            r.push(WorkerAction::Process);
        },
        WorkerEvent::Announced(Ok(false)) => {
            r.push(WorkerAction::Reconcile);
            r.push(WorkerAction::Complete);
        },
        WorkerEvent::Announced(Err(e)) => {
            r.push(WorkerAction::MarkRetryPending(e));
            r.push(WorkerAction::Complete);
        },
        WorkerEvent::Processed(Ok(n)) => {
            r.push(WorkerAction::MarkCompleted(n));
            r.push(WorkerAction::Complete);
        },
        WorkerEvent::Processed(Err(PullRequestProcessError::CheckUpdateFailed(e))) => {
            r.push(WorkerAction::MarkRetryPending(e));
            r.push(WorkerAction::Complete);
        },
        WorkerEvent::Processed(Err(PullRequestProcessError::StaleHead { expected, actual })) => {
            let mut reason: String = owned("authoritative pull_request head changed from ");
            reason.append(expected.as_str());
            reason.append(" to ");
            reason.append(actual.as_str());
            r.push(WorkerAction::MarkCancellationPending(reason));
            r.push(WorkerAction::Reconcile);
            r.push(WorkerAction::Complete);
        },
        WorkerEvent::Processed(Err(PullRequestProcessError::Superseded)) => {
            r.push(WorkerAction::Reconcile);
            r.push(WorkerAction::Complete);
        },
        WorkerEvent::Processed(Err(PullRequestProcessError::Failed(e))) => {
            r.push(WorkerAction::ShowFailure(e));
        },
        WorkerEvent::FailureShown { error, outcome: Ok(_) } => {
            r.push(WorkerAction::MarkFailed(error));
            r.push(WorkerAction::Complete);
        },
        WorkerEvent::FailureShown { error: _, outcome: Err(e) } => {
            r.push(WorkerAction::MarkRetryPending(e));
            r.push(WorkerAction::Complete);
        },
    }
    assert(worker_views(r@) =~= worker_plan(event));
    r
}

/// The step brings another event.
pub open spec fn awaits_event(a: WorkerAction<Seq<char>>) -> bool {
    a is Announce || a is Process || a is ShowFailure
}

/// Whatever a worker learns, its plan ends either by giving the pull request free, which it does
/// once and last, or in one step that brings the next event.
pub proof fn every_plan_completes_or_goes_on(event: WorkerEvent)
    ensures
        worker_plan(event).len() > 0,
        worker_plan(event).last() is Complete || awaits_event(worker_plan(event).last()),
        forall|i: int|
            0 <= i < worker_plan(event).len() - 1 ==> !((#[trigger] worker_plan(event)[i]) is Complete)
                && !awaits_event(worker_plan(event)[i]),
{
}

/// A job counts as finished only where its check run has been finished: after a failed terminal
/// update it is marked for a retry, never as completed or failed.
pub proof fn unfinished_checks_keep_the_job_open(event: WorkerEvent, i: int)
    requires
        0 <= i < worker_plan(event).len(),
    ensures
        worker_plan(event)[i] is MarkCompleted ==> event matches WorkerEvent::Processed(Ok(_)),
        worker_plan(event)[i] is MarkFailed ==> event matches WorkerEvent::FailureShown {
            error: _,
            outcome: Ok(_),
        },
{
}

// ---------------------------------------------------------------------------
// Check runs of jobs that are to be cancelled
// ---------------------------------------------------------------------------

/// What is learned while a cancellation is shown.
#[derive(Debug)]
pub enum ReconcileEvent {
    /// The job is the next of those that are to be cancelled.
    Picked { force: bool, now_unix_ms: u64 },
    /// The delivery's lock is held; whether the job is still to be cancelled.
    Locked { still_pending: bool },
    Token(Result<(), String>),
    /// The check run was looked for by its external id.
    LookedUp(Result<Option<u64>, String>),
    /// The id that was found was to be recorded.
    Attached { check_run_id: u64, outcome: Result<(), String> },
    /// The job was to be finished without any check run.
    SupersededWithoutCheck(Result<(), String>),
    /// The check run was to be shown as cancelled.
    Cancelled(Result<(), String>),
    /// The job was to be finished.
    Superseded(Result<(), String>),
}

/// What is done next to show a cancellation.
#[derive(Debug, PartialEq, Eq)]
pub enum ReconcileAction<T> {
    /// Leave the job for another time.
    Skip,
    Lock,
    FetchToken,
    LookUp,
    Attach(u64),
    SupersedeWithoutCheck,
    Cancel(u64),
    Supersede,
    /// Put the next attempt off, for the given reason.
    Defer(T),
    Done,
}

impl View for ReconcileAction<String> {
    type V = ReconcileAction<Seq<char>>;

    open spec fn view(&self) -> ReconcileAction<Seq<char>> {
        match self {
            ReconcileAction::Skip => ReconcileAction::Skip,
            ReconcileAction::Lock => ReconcileAction::Lock,
            ReconcileAction::FetchToken => ReconcileAction::FetchToken,
            ReconcileAction::LookUp => ReconcileAction::LookUp,
            ReconcileAction::Attach(id) => ReconcileAction::Attach(*id),
            ReconcileAction::SupersedeWithoutCheck => ReconcileAction::SupersedeWithoutCheck,
            ReconcileAction::Cancel(id) => ReconcileAction::Cancel(*id),
            ReconcileAction::Supersede => ReconcileAction::Supersede,
            ReconcileAction::Defer(e) => ReconcileAction::Defer(e@),
            ReconcileAction::Done => ReconcileAction::Done,
        }
    }
}

/// What is done next to show the cancellation of a job.
pub open spec fn reconcile_step(job: JobView, event: ReconcileEvent) -> ReconcileAction<Seq<char>> {
    match event {
        ReconcileEvent::Picked { force, now_unix_ms } => if force || job.retry_due(now_unix_ms) {
            ReconcileAction::Lock
        } else {
            ReconcileAction::Skip
        },
        ReconcileEvent::Locked { still_pending } => if still_pending {
            ReconcileAction::FetchToken
        } else {
            ReconcileAction::Skip
        },
        ReconcileEvent::Token(Ok(_)) => match job.check_run_id {
            Some(id) => ReconcileAction::Cancel(id),
            None => ReconcileAction::LookUp,
        },
        ReconcileEvent::Token(Err(e)) => ReconcileAction::Defer(
            "failed to obtain cancellation token: "@ + e@,
        ),
        ReconcileEvent::LookedUp(Ok(Some(id))) => ReconcileAction::Attach(id),
        ReconcileEvent::LookedUp(Ok(None)) => if job.check_run_creation
            == CheckRunCreationState::NotStarted {
            ReconcileAction::SupersedeWithoutCheck
        } else {
            ReconcileAction::Defer("created check is not yet observable"@)
        },
        ReconcileEvent::LookedUp(Err(e)) => ReconcileAction::Defer(
            "failed to look up cancellation-pending check: "@ + e@,
        ),
        ReconcileEvent::Attached { check_run_id, outcome: Ok(_) } => ReconcileAction::Cancel(
            check_run_id,
        ),
        ReconcileEvent::Attached { check_run_id: _, outcome: Err(e) } => ReconcileAction::Defer(
            "failed to persist recovered check-run id: "@ + e@,
        ),
        ReconcileEvent::SupersededWithoutCheck(Ok(_)) => ReconcileAction::Done,
        ReconcileEvent::SupersededWithoutCheck(Err(e)) => ReconcileAction::Defer(
            "failed to persist no-check supersession: "@ + e@,
        ),
        ReconcileEvent::Cancelled(Ok(_)) => ReconcileAction::Supersede,
        ReconcileEvent::Cancelled(Err(e)) => ReconcileAction::Defer(
            "failed to cancel superseded check: "@ + e@,
        ),
        ReconcileEvent::Superseded(Ok(_)) => ReconcileAction::Done,
        ReconcileEvent::Superseded(Err(e)) => ReconcileAction::Defer(
            "failed to persist terminalized cancellation: "@ + e@,
        ),
    }
}

/// What is done next to show the cancellation of a job.
pub fn next_reconcile_action(job: &StoredPullRequestJob, event: ReconcileEvent) -> (r:
    ReconcileAction<String>)
    ensures
        r@ == reconcile_step(job@, event),
{
    match event {
        ReconcileEvent::Picked { force, now_unix_ms } => if force || job.retry_is_due(
            now_unix_ms,
        ) {
            ReconcileAction::Lock
        } else {
            ReconcileAction::Skip
        },
        ReconcileEvent::Locked { still_pending } => if still_pending {
            ReconcileAction::FetchToken
        } else {
            ReconcileAction::Skip
        },
        ReconcileEvent::Token(Ok(_)) => match job.check_run_id {
            Some(id) => ReconcileAction::Cancel(id),
            None => ReconcileAction::LookUp,
        },
        ReconcileEvent::Token(Err(e)) => ReconcileAction::Defer(
            with_cause("failed to obtain cancellation token: ", e.as_str()),
        ),
        ReconcileEvent::LookedUp(Ok(Some(id))) => ReconcileAction::Attach(id),
        ReconcileEvent::LookedUp(Ok(None)) => if job.check_run_creation
            == CheckRunCreationState::NotStarted {
            ReconcileAction::SupersedeWithoutCheck
        } else {
            ReconcileAction::Defer(owned("created check is not yet observable"))
        },
        ReconcileEvent::LookedUp(Err(e)) => ReconcileAction::Defer(
            with_cause("failed to look up cancellation-pending check: ", e.as_str()),
        ),
        ReconcileEvent::Attached { check_run_id, outcome: Ok(_) } => ReconcileAction::Cancel(
            check_run_id,
        ),
        ReconcileEvent::Attached { check_run_id: _, outcome: Err(e) } => ReconcileAction::Defer(
            with_cause("failed to persist recovered check-run id: ", e.as_str()),
        ),
        ReconcileEvent::SupersededWithoutCheck(Ok(_)) => ReconcileAction::Done,
        ReconcileEvent::SupersededWithoutCheck(Err(e)) => ReconcileAction::Defer(
            with_cause("failed to persist no-check supersession: ", e.as_str()),
        ),
        ReconcileEvent::Cancelled(Ok(_)) => ReconcileAction::Supersede,
        ReconcileEvent::Cancelled(Err(e)) => ReconcileAction::Defer(
            with_cause("failed to cancel superseded check: ", e.as_str()),
        ),
        ReconcileEvent::Superseded(Ok(_)) => ReconcileAction::Done,
        ReconcileEvent::Superseded(Err(e)) => ReconcileAction::Defer(
            with_cause("failed to persist terminalized cancellation: ", e.as_str()),
        ),
    }
}

/// A displaced job is finished only once its check run is shown as cancelled, or where its creation
/// never began and none is found. Any failure on the way leaves the job to be tried again.
pub proof fn supersession_waits_for_the_cancelled_check(job: JobView, event: ReconcileEvent)
    ensures
        reconcile_step(job, event) is Supersede ==> event matches ReconcileEvent::Cancelled(Ok(_)),
        reconcile_step(job, event) is SupersedeWithoutCheck ==> (event
            matches ReconcileEvent::LookedUp(Ok(None))) && job.check_run_creation
            == CheckRunCreationState::NotStarted,
        (event matches ReconcileEvent::Token(Err(_))) || (event matches ReconcileEvent::LookedUp(
            Err(_),
        )) || (event matches ReconcileEvent::Cancelled(Err(_))) || (event
            matches ReconcileEvent::Superseded(Err(_))) || (event
            matches ReconcileEvent::SupersededWithoutCheck(Err(_))) || (event
            matches ReconcileEvent::Attached { check_run_id: _, outcome: Err(_) })
            ==> reconcile_step(job, event) is Defer,
{
}

// ---------------------------------------------------------------------------
// Check runs of waiting jobs
// ---------------------------------------------------------------------------

/// What is learned while a waiting job gets its check run.
#[derive(Debug)]
pub enum EnsureCheckEvent {
    Begun { cancellation_pending: bool },
    Token(Result<(), String>),
    /// The check run was looked for by its external id.
    LookedUp(Result<Option<u64>, String>),
    /// The intent to create one was to be recorded; `Ok(false)` where the job does not allow it.
    IntentRecorded(Result<bool, String>),
    Created(u64),
    /// Creating it failed; whether that surely created nothing.
    CreationFailed { error: String, surely_not_created: bool },
    /// The id was to be recorded.
    Attached(Result<(), String>),
}

/// What is done next to give a waiting job its check run.
#[derive(Debug, PartialEq, Eq)]
pub enum EnsureCheckAction<T> {
    /// The job gets no check run.
    GiveUp,
    FetchToken,
    LookUp,
    RecordIntent,
    Create,
    /// Forget the recorded intent, then fail.
    ResetIntentAndFail(T),
    Fail(T),
    Attach(u64),
    Finish,
}

impl View for EnsureCheckAction<String> {
    type V = EnsureCheckAction<Seq<char>>;

    open spec fn view(&self) -> EnsureCheckAction<Seq<char>> {
        match self {
            EnsureCheckAction::GiveUp => EnsureCheckAction::GiveUp,
            EnsureCheckAction::FetchToken => EnsureCheckAction::FetchToken,
            EnsureCheckAction::LookUp => EnsureCheckAction::LookUp,
            EnsureCheckAction::RecordIntent => EnsureCheckAction::RecordIntent,
            EnsureCheckAction::Create => EnsureCheckAction::Create,
            EnsureCheckAction::ResetIntentAndFail(e) => EnsureCheckAction::ResetIntentAndFail(e@),
            EnsureCheckAction::Fail(e) => EnsureCheckAction::Fail(e@),
            EnsureCheckAction::Attach(id) => EnsureCheckAction::Attach(*id),
            EnsureCheckAction::Finish => EnsureCheckAction::Finish,
        }
    }
}

/// What is done next to give a waiting job its check run.
pub open spec fn ensure_check_step(job: JobView, event: EnsureCheckEvent) -> EnsureCheckAction<
    Seq<char>,
> {
    match event {
        EnsureCheckEvent::Begun { cancellation_pending } => if cancellation_pending {
            EnsureCheckAction::GiveUp
        } else {
            EnsureCheckAction::FetchToken
        },
        EnsureCheckEvent::Token(Ok(_)) => EnsureCheckAction::LookUp,
        EnsureCheckEvent::Token(Err(e)) => EnsureCheckAction::Fail(e@),
        EnsureCheckEvent::LookedUp(Err(e)) => EnsureCheckAction::Fail(e@),
        EnsureCheckEvent::LookedUp(Ok(Some(id))) => EnsureCheckAction::Attach(id),
        EnsureCheckEvent::LookedUp(Ok(None)) => if job.check_run_creation
            == CheckRunCreationState::NotStarted {
            EnsureCheckAction::RecordIntent
        } else {
            EnsureCheckAction::Fail(
                "queued check-run creation is not yet observable; retrying external-id lookup"@,
            )
        },
        EnsureCheckEvent::IntentRecorded(Ok(true)) => EnsureCheckAction::Create,
        EnsureCheckEvent::IntentRecorded(Ok(false)) => EnsureCheckAction::GiveUp,
        EnsureCheckEvent::IntentRecorded(Err(e)) => EnsureCheckAction::Fail(e@),
        EnsureCheckEvent::Created(id) => EnsureCheckAction::Attach(id),
        EnsureCheckEvent::CreationFailed { error, surely_not_created } => if surely_not_created {
            EnsureCheckAction::ResetIntentAndFail(error@)
        } else {
            EnsureCheckAction::Fail(error@)
        },
        EnsureCheckEvent::Attached(Ok(_)) => EnsureCheckAction::Finish,
        EnsureCheckEvent::Attached(Err(e)) => EnsureCheckAction::Fail(e@),
    }
}

/// What is done next to give a waiting job its check run.
pub fn next_ensure_check_action(job: &StoredPullRequestJob, event: EnsureCheckEvent) -> (r:
    EnsureCheckAction<String>)
    ensures
        r@ == ensure_check_step(job@, event),
{
    match event {
        EnsureCheckEvent::Begun { cancellation_pending } => if cancellation_pending {
            EnsureCheckAction::GiveUp
        } else {
            EnsureCheckAction::FetchToken
        },
        EnsureCheckEvent::Token(Ok(_)) => EnsureCheckAction::LookUp,
        EnsureCheckEvent::Token(Err(e)) => EnsureCheckAction::Fail(e),
        EnsureCheckEvent::LookedUp(Err(e)) => EnsureCheckAction::Fail(e),
        EnsureCheckEvent::LookedUp(Ok(Some(id))) => EnsureCheckAction::Attach(id),
        EnsureCheckEvent::LookedUp(Ok(None)) => if job.check_run_creation
            == CheckRunCreationState::NotStarted {
            EnsureCheckAction::RecordIntent
        } else {
            EnsureCheckAction::Fail(
                owned(
                    "queued check-run creation is not yet observable; retrying external-id lookup",
                ),
            )
        },
        EnsureCheckEvent::IntentRecorded(Ok(true)) => EnsureCheckAction::Create,
        EnsureCheckEvent::IntentRecorded(Ok(false)) => EnsureCheckAction::GiveUp,
        EnsureCheckEvent::IntentRecorded(Err(e)) => EnsureCheckAction::Fail(e),
        EnsureCheckEvent::Created(id) => EnsureCheckAction::Attach(id),
        EnsureCheckEvent::CreationFailed { error, surely_not_created } => if surely_not_created {
            EnsureCheckAction::ResetIntentAndFail(error)
        } else {
            EnsureCheckAction::Fail(error)
        },
        EnsureCheckEvent::Attached(Ok(_)) => EnsureCheckAction::Finish,
        EnsureCheckEvent::Attached(Err(e)) => EnsureCheckAction::Fail(e),
    }
}

/// A check run is created only once the intent to do so is recorded, which is recorded only where
/// no creation has begun before and none is found; the intent is forgotten only where surely
/// nothing was created.
pub proof fn no_check_run_is_created_twice(job: JobView, event: EnsureCheckEvent)
    ensures
        ensure_check_step(job, event) is Create ==> event
            matches EnsureCheckEvent::IntentRecorded(Ok(true)),
        ensure_check_step(job, event) is RecordIntent ==> (event
            matches EnsureCheckEvent::LookedUp(Ok(None))) && job.check_run_creation
            == CheckRunCreationState::NotStarted,
        ensure_check_step(job, event) is ResetIntentAndFail ==> event
            matches EnsureCheckEvent::CreationFailed { error: _, surely_not_created: true },
{
}

// ---------------------------------------------------------------------------
// Showing a job as running, or as failed
// ---------------------------------------------------------------------------

/// The check run that a job turned out to have, once it was ensured.
pub open spec fn ensured_id(attachment: Option<CheckRunAttachment>) -> Option<u64> {
    match attachment {
        Some(CheckRunAttachment::Attached(job)) => job.check_run_id,
        _ => None,
    }
}

/// The check run that a job turned out to have, once it was ensured.
pub fn ensured_check_run(attachment: Option<CheckRunAttachment>) -> (r: Option<u64>)
    ensures
        r == ensured_id(attachment),
{
    match attachment {
        Some(CheckRunAttachment::Attached(job)) => job.check_run_id,
        _ => None,
    }
}

/// What is learned while a job's check run is updated.
#[derive(Debug)]
pub enum UpdateCheckEvent {
    /// The delivery's lock is held.
    Begun { cancellation_pending: bool, known_check_run: Option<u64> },
    /// The job was to be given a check run; `None` where it has none that may be updated.
    Ensured(Result<Option<u64>, String>),
    /// Whether the job is to be cancelled by now.
    Rechecked { cancellation_pending: bool, check_run_id: u64 },
    Token { outcome: Result<(), String>, check_run_id: u64 },
    Updated(Result<(), String>),
}

/// What is done next to update a job's check run.
#[derive(Debug, PartialEq, Eq)]
pub enum UpdateCheckAction<T> {
    /// Give the job a check run.
    Ensure,
    /// See whether the job is to be cancelled by now.
    Recheck(u64),
    FetchToken(u64),
    Update(u64),
    /// The check run is left to its cancellation.
    Leave,
    Fail(T),
    Finish,
}

impl View for UpdateCheckAction<String> {
    type V = UpdateCheckAction<Seq<char>>;

    open spec fn view(&self) -> UpdateCheckAction<Seq<char>> {
        match self {
            UpdateCheckAction::Ensure => UpdateCheckAction::Ensure,
            UpdateCheckAction::Recheck(id) => UpdateCheckAction::Recheck(*id),
            UpdateCheckAction::FetchToken(id) => UpdateCheckAction::FetchToken(*id),
            UpdateCheckAction::Update(id) => UpdateCheckAction::Update(*id),
            UpdateCheckAction::Leave => UpdateCheckAction::Leave,
            UpdateCheckAction::Fail(e) => UpdateCheckAction::Fail(e@),
            UpdateCheckAction::Finish => UpdateCheckAction::Finish,
        }
    }
}

/// What is done next to update a job's check run. `rechecks` says whether the job is looked at once
/// more before the update, as it is before it is shown as running.
pub open spec fn update_check_step(rechecks: bool, event: UpdateCheckEvent) -> UpdateCheckAction<
    Seq<char>,
> {
    let known = |id: u64|
        if rechecks {
            UpdateCheckAction::<Seq<char>>::Recheck(id)
        } else {
            UpdateCheckAction::FetchToken(id)
        };
    match event {
        UpdateCheckEvent::Begun { cancellation_pending, known_check_run } => if cancellation_pending {
            UpdateCheckAction::Leave
        } else {
            match known_check_run {
                Some(id) => known(id),
                None => UpdateCheckAction::Ensure,
            }
        },
        UpdateCheckEvent::Ensured(Err(e)) => UpdateCheckAction::Fail(e@),
        UpdateCheckEvent::Ensured(Ok(None)) => UpdateCheckAction::Leave,
        UpdateCheckEvent::Ensured(Ok(Some(id))) => known(id),
        UpdateCheckEvent::Rechecked { cancellation_pending, check_run_id } => {
            if cancellation_pending {
                UpdateCheckAction::Leave
            } else {
                UpdateCheckAction::FetchToken(check_run_id)
            }
        },
        UpdateCheckEvent::Token { outcome: Ok(_), check_run_id } => UpdateCheckAction::Update(
            check_run_id,
        ),
        UpdateCheckEvent::Token { outcome: Err(e), check_run_id: _ } => UpdateCheckAction::Fail(
            e@,
        ),
        UpdateCheckEvent::Updated(Ok(_)) => UpdateCheckAction::Finish,
        UpdateCheckEvent::Updated(Err(e)) => UpdateCheckAction::Fail(e@),
    }
}

fn with_known_check_run(rechecks: bool, id: u64) -> (r: UpdateCheckAction<String>)
    ensures
        r@ == if rechecks {
            UpdateCheckAction::<Seq<char>>::Recheck(id)
        } else {
            UpdateCheckAction::FetchToken(id)
        },
{
    if rechecks {
        UpdateCheckAction::Recheck(id)
    } else {
        UpdateCheckAction::FetchToken(id)
    }
}

fn next_update_check_action(rechecks: bool, event: UpdateCheckEvent) -> (r: UpdateCheckAction<
    String,
>)
    ensures
        r@ == update_check_step(rechecks, event),
{
    match event {
        UpdateCheckEvent::Begun { cancellation_pending, known_check_run } => if cancellation_pending {
            UpdateCheckAction::Leave
        } else {
            match known_check_run {
                Some(id) => with_known_check_run(rechecks, id),
                None => UpdateCheckAction::Ensure,
            }
        },
        UpdateCheckEvent::Ensured(Err(e)) => UpdateCheckAction::Fail(e),
        UpdateCheckEvent::Ensured(Ok(None)) => UpdateCheckAction::Leave,
        UpdateCheckEvent::Ensured(Ok(Some(id))) => with_known_check_run(rechecks, id),
        UpdateCheckEvent::Rechecked { cancellation_pending, check_run_id } => {
            if cancellation_pending {
                UpdateCheckAction::Leave
            } else {
                UpdateCheckAction::FetchToken(check_run_id)
            }
        },
        UpdateCheckEvent::Token { outcome: Ok(_), check_run_id } => UpdateCheckAction::Update(
            check_run_id,
        ),
        UpdateCheckEvent::Token { outcome: Err(e), check_run_id: _ } => UpdateCheckAction::Fail(
            e,
        ),
        UpdateCheckEvent::Updated(Ok(_)) => UpdateCheckAction::Finish,
        UpdateCheckEvent::Updated(Err(e)) => UpdateCheckAction::Fail(e),
    }
}

/// What is done next to show a job as running. A job that is to be cancelled is left alone.
pub fn mark_job_check_running(event: UpdateCheckEvent) -> (r: UpdateCheckAction<String>)
    ensures
        r@ == update_check_step(true, event),
{
    next_update_check_action(true, event)
}

/// What is done next to show a job as failed. A job that is to be cancelled is left alone.
pub fn complete_failed_job_check(event: UpdateCheckEvent) -> (r: UpdateCheckAction<String>)
    ensures
        r@ == update_check_step(false, event),
{
    next_update_check_action(false, event)
}

/// A check run is never updated on behalf of a job that was seen to be cancelled.
pub proof fn cancelled_jobs_update_no_check(rechecks: bool, event: UpdateCheckEvent)
    ensures
        (event matches UpdateCheckEvent::Begun { cancellation_pending: true, known_check_run: _ })
            || (event matches UpdateCheckEvent::Rechecked {
            cancellation_pending: true,
            check_run_id: _,
        }) ==> update_check_step(rechecks, event) is Leave,
        update_check_step(rechecks, event) is Update ==> event matches UpdateCheckEvent::Token {
            outcome: Ok(_),
            check_run_id: _,
        },
{
}

// ---------------------------------------------------------------------------
// Processing a delivery
// ---------------------------------------------------------------------------

/// What is learned while a delivery is processed.
#[derive(Debug)]
pub enum ProcessEvent {
    Begun { has_pull_request: bool, has_repository: bool },
    Token(Result<(), String>),
    /// The head that the pull request has now.
    Head { expected: String, actual: Result<String, String> },
    /// The changed lines were asked for; without them the whole tree counts as changed.
    ChangedLines(Result<(), String>),
    Scanned(Result<(), String>),
    /// The head just before the review is shown, and whether the job is to be cancelled by now.
    HeadBeforeReview {
        expected: String,
        actual: Result<String, String>,
        cancellation_pending: bool,
    },
    Reviewed(Result<(), String>),
    /// The delivery's lock is held.
    Finishing { cancellation_pending: bool, check_run_id: Option<u64> },
    CheckCompleted(Result<(), String>),
}

/// What is done next to process a delivery.
#[derive(Debug, PartialEq, Eq)]
pub enum ProcessAction {
    FetchToken,
    FetchHead,
    FetchChangedLines,
    /// Scan, telling the changed lines where they are known.
    Scan { changed_lines_known: bool },
    FetchHeadBeforeReview,
    Review,
    LockForCompletion,
    CompleteCheck(u64),
    Finish,
}

/// Why processing ends here, if it does.
pub open spec fn process_failure(event: ProcessEvent) -> Option<ProcessFailure> {
    match event {
        ProcessEvent::Begun { has_pull_request, has_repository } => if !has_pull_request {
            Some(ProcessFailure::Failed("pull_request payload missing PR data"@))
        } else if !has_repository {
            Some(ProcessFailure::Failed("pull_request payload missing repository"@))
        } else {
            None
        },
        ProcessEvent::Token(Err(e)) => Some(ProcessFailure::Failed(e@)),
        ProcessEvent::Head { expected, actual } => head_failure(expected, actual),
        ProcessEvent::Scanned(Err(e)) => Some(ProcessFailure::Failed(e@)),
        ProcessEvent::HeadBeforeReview { expected, actual, cancellation_pending } => {
            match head_failure(expected, actual) {
                Some(f) => Some(f),
                None => if cancellation_pending {
                    Some(ProcessFailure::Superseded)
                } else {
                    None
                },
            }
        },
        ProcessEvent::Reviewed(Err(e)) => Some(ProcessFailure::Failed(e@)),
        ProcessEvent::Finishing { cancellation_pending, check_run_id } => {
            if cancellation_pending {
                Some(ProcessFailure::Superseded)
            } else if check_run_id is None {
                Some(
                    ProcessFailure::CheckUpdateFailed(
                        "queued check-run id was not persisted before terminal update"@,
                    ),
                )
            } else {
                None
            }
        },
        ProcessEvent::CheckCompleted(Err(e)) => Some(ProcessFailure::CheckUpdateFailed(e@)),
        _ => None,
    }
}

/// What a [`PullRequestProcessError`] says.
pub enum ProcessFailure {
    Failed(Seq<char>),
    CheckUpdateFailed(Seq<char>),
    StaleHead(Seq<char>, Seq<char>),
    Superseded,
}

impl View for PullRequestProcessError {
    type V = ProcessFailure;

    open spec fn view(&self) -> ProcessFailure {
        match self {
            PullRequestProcessError::Failed(e) => ProcessFailure::Failed(e@),
            PullRequestProcessError::CheckUpdateFailed(e) => ProcessFailure::CheckUpdateFailed(e@),
            PullRequestProcessError::StaleHead { expected, actual } => ProcessFailure::StaleHead(
                expected@,
                actual@,
            ),
            PullRequestProcessError::Superseded => ProcessFailure::Superseded,
        }
    }
}

/// The head could not be had, or is not the one the delivery is about.
pub open spec fn head_failure(expected: String, actual: Result<String, String>) -> Option<
    ProcessFailure,
> {
    match actual {
        Err(e) => Some(ProcessFailure::Failed(e@)),
        Ok(a) => if a@ == expected@ {
            None
        } else {
            Some(ProcessFailure::StaleHead(expected@, a@))
        },
    }
}

/// What follows where processing goes on.
pub open spec fn process_step(event: ProcessEvent) -> ProcessAction {
    match event {
        ProcessEvent::Begun { .. } => ProcessAction::FetchToken,
        ProcessEvent::Token(_) => ProcessAction::FetchHead,
        ProcessEvent::Head { .. } => ProcessAction::FetchChangedLines,
        ProcessEvent::ChangedLines(r) => ProcessAction::Scan { changed_lines_known: r is Ok },
        ProcessEvent::Scanned(_) => ProcessAction::FetchHeadBeforeReview,
        ProcessEvent::HeadBeforeReview { .. } => ProcessAction::Review,
        ProcessEvent::Reviewed(_) => ProcessAction::LockForCompletion,
        ProcessEvent::Finishing { cancellation_pending: _, check_run_id } =>
            ProcessAction::CompleteCheck(check_run_id.unwrap()),
        ProcessEvent::CheckCompleted(_) => ProcessAction::Finish,
    }
}

pub(crate) fn check_head(expected: String, actual: Result<String, String>) -> (r: Result<
    (),
    PullRequestProcessError,
>)
    ensures
        match head_failure(expected, actual) {
            None => r is Ok,
            Some(f) => r matches Err(e) && e@ == f,
        },
{
    match actual {
        Err(e) => Err(PullRequestProcessError::Failed(e)),
        Ok(a) => validate_authoritative_pull_request_head(expected.as_str(), a),
    }
}

/// Decides what follows while a delivery is processed, or why processing ends.
pub fn next_process_action(event: ProcessEvent) -> (r: Result<
    ProcessAction,
    PullRequestProcessError,
>)
    ensures
        match process_failure(event) {
            None => r == Ok::<ProcessAction, PullRequestProcessError>(process_step(event)),
            Some(f) => r matches Err(e) && e@ == f,
        },
{
    match event {
        ProcessEvent::Begun { has_pull_request, has_repository } => {
            if !has_pull_request {
                Err(
                    PullRequestProcessError::Failed(
                        owned("pull_request payload missing PR data"),
                    ),
                )
            } else if !has_repository {
                Err(
                    PullRequestProcessError::Failed(
                        owned("pull_request payload missing repository"),
                    ),
                )
            } else {
                Ok(ProcessAction::FetchToken)
            }
        },
        ProcessEvent::Token(Ok(_)) => Ok(ProcessAction::FetchHead),
        ProcessEvent::Token(Err(e)) => Err(PullRequestProcessError::Failed(e)),
        ProcessEvent::Head { expected, actual } => match check_head(expected, actual) {
            Ok(_) => Ok(ProcessAction::FetchChangedLines),
            Err(e) => Err(e),
        },
        ProcessEvent::ChangedLines(lines) => Ok(
            ProcessAction::Scan { changed_lines_known: lines.is_ok() },
        ),
        ProcessEvent::Scanned(Ok(_)) => Ok(ProcessAction::FetchHeadBeforeReview),
        ProcessEvent::Scanned(Err(e)) => Err(PullRequestProcessError::Failed(e)),
        ProcessEvent::HeadBeforeReview { expected, actual, cancellation_pending } => {
            match check_head(expected, actual) {
                Ok(_) => if cancellation_pending {
                    Err(PullRequestProcessError::Superseded)
                } else {
                    Ok(ProcessAction::Review)
                },
                Err(e) => Err(e),
            }
        },
        ProcessEvent::Reviewed(Ok(_)) => Ok(ProcessAction::LockForCompletion),
        ProcessEvent::Reviewed(Err(e)) => Err(PullRequestProcessError::Failed(e)),
        ProcessEvent::Finishing { cancellation_pending, check_run_id } => {
            if cancellation_pending {
                return Err(PullRequestProcessError::Superseded);
            }
            match check_run_id {
                Some(id) => Ok(ProcessAction::CompleteCheck(id)),
                None => Err(
                    PullRequestProcessError::CheckUpdateFailed(
                        owned("queued check-run id was not persisted before terminal update"),
                    ),
                ),
            }
        },
        ProcessEvent::CheckCompleted(Ok(_)) => Ok(ProcessAction::Finish),
        ProcessEvent::CheckCompleted(Err(e)) => Err(PullRequestProcessError::CheckUpdateFailed(e)),
    }
}

/// Nothing is shown of a delivery whose pull request has moved on, or whose job is to be cancelled.
pub proof fn only_current_heads_are_reviewed(event: ProcessEvent)
    ensures
        process_failure(event) is None && process_step(event) is Review ==> (event
            matches ProcessEvent::HeadBeforeReview {
            expected,
            actual: Ok(actual),
            cancellation_pending: false,
        } && actual@ == expected@),
        process_failure(event) is None && process_step(event) is CompleteCheck ==> event
            matches ProcessEvent::Finishing { cancellation_pending: false, check_run_id: Some(_) },
{
}

} // verus!
