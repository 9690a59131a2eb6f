//! Where the steps of a delivery lead: one that nothing stands in the way of goes through to its end,
//! and what does stand in the way is reported as it was.

use crate::github_app::admission::{
    admission_failure, admission_step, token_step, AdmissionEvent, TokenAction, TokenEvent,
};
use crate::github_app::dispatcher::DispatchOutcome;
use crate::github_app::lifecycle::{
    ensure_check_step, process_failure, process_step, reconcile_step, update_check_step, worker_plan,
    EnsureCheckAction, EnsureCheckEvent, ProcessAction, ProcessEvent, ProcessFailure,
    PullRequestProcessError, ReconcileAction, ReconcileEvent, UpdateCheckAction, UpdateCheckEvent,
    WorkerAction, WorkerEvent,
};
use crate::github_app::pull_request_job_store::JobView;
use crate::github_app::webhook::{
    names_of, webhook_plan, EventKind, GitHubRepositorySummary, WebhookAction, WebhookEvent,
};
use vstd::prelude::*;

verus! {

// ---------------------------------------------------------------------------
// Deliveries
// ---------------------------------------------------------------------------

/// A signed delivery is checked; a genuine one about a pull request is read, and where it changes code
/// and names its installation and pull request, it is decided on. One that is accepted gets its check
/// run, and waiting jobs are handed out; one that is known already only hands them out. Both are
/// answered with 202.
pub proof fn genuine_deliveries_go_through(outcome: DispatchOutcome)
    ensures
        webhook_plan(WebhookEvent::Received { signed: true }) == seq![
            WebhookAction::VerifySignature,
        ],
        webhook_plan(WebhookEvent::Verified { genuine: true, kind: EventKind::PullRequest }) == seq![
            WebhookAction::ReadPullRequest,
        ],
        webhook_plan(
            WebhookEvent::PullRequestRead {
                valid: true,
                processed: true,
                has_installation: true,
                has_key: true,
            },
        ) == seq![WebhookAction::Decide],
        webhook_plan(WebhookEvent::Decided(Ok(outcome))).contains(WebhookAction::Schedule),
        outcome is Accepted <==> webhook_plan(WebhookEvent::Decided(Ok(outcome))).contains(
            WebhookAction::CreateQueuedCheck,
        ),
        webhook_plan(WebhookEvent::Decided(Ok(outcome))).last() == WebhookAction::Respond(202),
{
    let plan = webhook_plan(WebhookEvent::Decided(Ok(outcome)));
    if outcome is Accepted {
        assert(plan[0] == WebhookAction::CreateQueuedCheck);
        assert(plan[2] == WebhookAction::Schedule);
    } else {
        assert(plan[0] == WebhookAction::Schedule);
    }
}

/// A pull-request event that changes no code, or names no installation or pull request, is answered
/// and has no other effect.
pub proof fn other_pull_request_events_do_nothing(
    processed: bool,
    has_installation: bool,
    has_key: bool,
)
    requires
        !(processed && has_installation && has_key),
    ensures
        webhook_plan(
            WebhookEvent::PullRequestRead { valid: true, processed, has_installation, has_key },
        ) == seq![WebhookAction::Respond(202)],
{
}

/// What an installation event says is recorded; the token of an installation that is gone is
/// forgotten first.
pub proof fn installation_events_are_recorded(deleted: bool)
    ensures
        webhook_plan(
            WebhookEvent::InstallationRead { valid: true, has_installation: true, deleted },
        ).contains(WebhookAction::PersistInstallation),
        deleted <==> webhook_plan(
            WebhookEvent::InstallationRead { valid: true, has_installation: true, deleted },
        )[0] is ForgetToken,
        webhook_plan(WebhookEvent::Verified { genuine: true, kind: EventKind::Installation })
            == seq![WebhookAction::ReadInstallation],
{
    let plan = webhook_plan(
        WebhookEvent::InstallationRead { valid: true, has_installation: true, deleted },
    );
    if deleted {
        assert(plan[1] is PersistInstallation);
    } else {
        assert(plan[0] is PersistInstallation);
    }
}

/// The repositories that an event names are all taken, in their order.
pub proof fn repositories_are_all_taken(v: Vec<GitHubRepositorySummary>, i: int)
    requires
        0 <= i < v@.len(),
    ensures
        names_of(Some(v)).len() == v@.len(),
        names_of(Some(v))[i] == v@[i].full_name@,
        names_of(None).len() == 0,
{
}

/// A token that is at hand is used; without one the lock is taken, and a token is asked for only
/// where there is still none. What is asked for is remembered, and what went wrong is reported.
pub proof fn tokens_are_had_in_turn(token: String, error: String)
    ensures
        token_step(TokenEvent::Looked(Some(token))) == TokenAction::Use(token@),
        token_step(TokenEvent::LookedUnderLock(Some(token))) == TokenAction::Use(token@),
        token_step(TokenEvent::Looked(None)) is TakeLock,
        token_step(TokenEvent::LookedUnderLock(None)) is Fetch,
        token_step(TokenEvent::Fetched(Ok(token))) == TokenAction::RememberAndUse(token@),
        token_step(TokenEvent::Fetched(Err(error))) == TokenAction::Fail(error@),
{
}

/// A delivery whose head is current is accepted: the lock, the token, the head and the acceptance
/// follow one another.
pub proof fn current_deliveries_are_accepted(head: String, actual: String)
    requires
        actual@ == head@,
    ensures
        admission_failure(AdmissionEvent::Begun { head: Some(head) }) is None,
        admission_step(AdmissionEvent::Begun { head: Some(head) }) is TakeLock,
        admission_failure(AdmissionEvent::Locked) is None,
        admission_step(AdmissionEvent::Locked) is FetchToken,
        admission_failure(AdmissionEvent::Token(Ok(()))) is None,
        admission_step(AdmissionEvent::Token(Ok(()))) is FetchHead,
        admission_failure(AdmissionEvent::Head { expected: head, actual: Ok(actual) }) is None,
        admission_step(AdmissionEvent::Head { expected: head, actual: Ok(actual) }) is Dispatch,
{
}

// ---------------------------------------------------------------------------
// Processing
// ---------------------------------------------------------------------------

/// A delivery that nothing stands in the way of is scanned, reviewed and finished, in this order, with
/// its head looked at before the scan and before the review. Changed lines that could not be had stop
/// nothing.
pub proof fn processing_goes_through(
    head: String,
    actual: String,
    lines: Result<(), String>,
    check_run_id: u64,
)
    requires
        actual@ == head@,
    ensures
        ({
            let begun = ProcessEvent::Begun { has_pull_request: true, has_repository: true };
            let now = ProcessEvent::Head { expected: head, actual: Ok(actual) };
            let before = ProcessEvent::HeadBeforeReview {
                expected: head,
                actual: Ok(actual),
                cancellation_pending: false,
            };
            let last = ProcessEvent::Finishing {
                cancellation_pending: false,
                check_run_id: Some(check_run_id),
            };
            &&& process_failure(begun) is None && process_step(begun) is FetchToken
            &&& process_failure(ProcessEvent::Token(Ok(()))) is None && process_step(
                ProcessEvent::Token(Ok(())),
            ) is FetchHead
            &&& process_failure(now) is None && process_step(now) is FetchChangedLines
            &&& process_failure(ProcessEvent::ChangedLines(lines)) is None && process_step(
                ProcessEvent::ChangedLines(lines),
            ) == (ProcessAction::Scan { changed_lines_known: lines is Ok })
            &&& process_failure(ProcessEvent::Scanned(Ok(()))) is None && process_step(
                ProcessEvent::Scanned(Ok(())),
            ) is FetchHeadBeforeReview
            &&& process_failure(before) is None && process_step(before) is Review
            &&& process_failure(ProcessEvent::Reviewed(Ok(()))) is None && process_step(
                ProcessEvent::Reviewed(Ok(())),
            ) is LockForCompletion
            &&& process_failure(last) is None && process_step(last)
                == ProcessAction::CompleteCheck(check_run_id)
            &&& process_failure(ProcessEvent::CheckCompleted(Ok(()))) is None && process_step(
                ProcessEvent::CheckCompleted(Ok(())),
            ) is Finish
        }),
{
}

/// What goes wrong while a delivery is processed ends it with the error as it was; only a check run
/// that could not be finished is told apart, so that it is tried again.
pub proof fn errors_end_processing_as_they_were(error: String, head: String, other: String)
    requires
        other@ != head@,
    ensures
        process_failure(ProcessEvent::Token(Err(error))) == Some(ProcessFailure::Failed(error@)),
        process_failure(ProcessEvent::Head { expected: head, actual: Err(error) }) == Some(
            ProcessFailure::Failed(error@),
        ),
        process_failure(ProcessEvent::Scanned(Err(error))) == Some(ProcessFailure::Failed(error@)),
        process_failure(ProcessEvent::Reviewed(Err(error))) == Some(ProcessFailure::Failed(error@)),
        process_failure(ProcessEvent::CheckCompleted(Err(error))) == Some(
            ProcessFailure::CheckUpdateFailed(error@),
        ),
        process_failure(ProcessEvent::Head { expected: head, actual: Ok(other) }) == Some(
            ProcessFailure::StaleHead(head@, other@),
        ),
        process_failure(
            ProcessEvent::HeadBeforeReview {
                expected: head,
                actual: Ok(other),
                cancellation_pending: false,
            },
        ) == Some(ProcessFailure::StaleHead(head@, other@)),
{
}

/// A worker that has its job shows it as running, processes it and records how many findings there
/// are; what failed is shown and recorded as it was, and what could not be shown is tried again.
pub proof fn workers_record_what_came_of_their_job(n: usize, error: String)
    ensures
        worker_plan(WorkerEvent::Claimed(Ok(true))) == seq![WorkerAction::<Seq<char>>::Announce],
        worker_plan(WorkerEvent::Announced(Ok(true))) == seq![WorkerAction::<Seq<char>>::Process],
        worker_plan(WorkerEvent::Processed(Ok(n)))[0] == WorkerAction::<Seq<char>>::MarkCompleted(n),
        worker_plan(WorkerEvent::Processed(Err(PullRequestProcessError::Failed(error))))[0]
            == WorkerAction::ShowFailure(error@),
        worker_plan(WorkerEvent::FailureShown { error, outcome: Ok(()) })[0]
            == WorkerAction::MarkFailed(error@),
        worker_plan(WorkerEvent::Announced(Err(error)))[0] == WorkerAction::MarkRetryPending(error@),
        worker_plan(
            WorkerEvent::Processed(Err(PullRequestProcessError::CheckUpdateFailed(error))),
        )[0] == WorkerAction::MarkRetryPending(error@),
        worker_plan(WorkerEvent::Processed(Err(PullRequestProcessError::Superseded)))[0]
            is Reconcile,
        worker_plan(WorkerEvent::Announced(Ok(false)))[0] is Reconcile,
{
}

// ---------------------------------------------------------------------------
// Check runs
// ---------------------------------------------------------------------------

/// The check run that is found for a job is attached to it; where none is found and none was begun,
/// the intent is recorded, the check run created and then attached.
pub proof fn jobs_get_their_check_run(job: JobView, id: u64)
    ensures
        ensure_check_step(job, EnsureCheckEvent::Begun { cancellation_pending: false })
            is FetchToken,
        ensure_check_step(job, EnsureCheckEvent::Token(Ok(()))) is LookUp,
        ensure_check_step(job, EnsureCheckEvent::LookedUp(Ok(Some(id))))
            == EnsureCheckAction::<Seq<char>>::Attach(id),
        job.check_run_creation is NotStarted ==> ensure_check_step(
            job,
            EnsureCheckEvent::LookedUp(Ok(None)),
        ) is RecordIntent,
        ensure_check_step(job, EnsureCheckEvent::IntentRecorded(Ok(true))) is Create,
        ensure_check_step(job, EnsureCheckEvent::Created(id)) == EnsureCheckAction::<
            Seq<char>,
        >::Attach(id),
        ensure_check_step(job, EnsureCheckEvent::Attached(Ok(()))) is Finish,
{
}

/// The cancellation of a job goes through where its time has come, or it need not wait: its check run
/// is cancelled, after it was looked for where it was not known, and then the job is finished.
pub proof fn cancellations_go_through(job: JobView, now_unix_ms: u64, id: u64)
    ensures
        reconcile_step(job, ReconcileEvent::Picked { force: true, now_unix_ms }) is Lock,
        job.retry_not_before_unix_ms is None ==> reconcile_step(
            job,
            ReconcileEvent::Picked { force: false, now_unix_ms },
        ) is Lock,
        job.retry_not_before_unix_ms matches Some(at) ==> (reconcile_step(
            job,
            ReconcileEvent::Picked { force: false, now_unix_ms },
        ) is Skip <==> now_unix_ms < at),
        reconcile_step(job, ReconcileEvent::Locked { still_pending: true }) is FetchToken,
        job.check_run_id == Some(id) ==> reconcile_step(job, ReconcileEvent::Token(Ok(())))
            == ReconcileAction::<Seq<char>>::Cancel(id),
        job.check_run_id is None ==> reconcile_step(job, ReconcileEvent::Token(Ok(()))) is LookUp,
        reconcile_step(job, ReconcileEvent::LookedUp(Ok(Some(id)))) == ReconcileAction::<
            Seq<char>,
        >::Attach(id),
        reconcile_step(job, ReconcileEvent::Attached { check_run_id: id, outcome: Ok(()) })
            == ReconcileAction::<Seq<char>>::Cancel(id),
        reconcile_step(job, ReconcileEvent::Cancelled(Ok(()))) is Supersede,
        reconcile_step(job, ReconcileEvent::Superseded(Ok(()))) is Done,
{
}

/// Whatever goes wrong with a cancellation puts it off.
pub proof fn failed_cancellations_are_put_off(job: JobView, id: u64, error: String)
    ensures
        reconcile_step(job, ReconcileEvent::Token(Err(error))) is Defer,
        reconcile_step(job, ReconcileEvent::LookedUp(Err(error))) is Defer,
        reconcile_step(job, ReconcileEvent::Attached { check_run_id: id, outcome: Err(error) })
            is Defer,
        reconcile_step(job, ReconcileEvent::Cancelled(Err(error))) is Defer,
        reconcile_step(job, ReconcileEvent::Superseded(Err(error))) is Defer,
        reconcile_step(job, ReconcileEvent::SupersededWithoutCheck(Err(error))) is Defer,
{
}

/// A check run is updated under its own number: the one that is known, or the one that the job was
/// given, and after a second look at the job where that is asked for.
pub proof fn check_runs_are_updated_under_their_number(id: u64, rechecks: bool)
    ensures
        update_check_step(
            true,
            UpdateCheckEvent::Begun { cancellation_pending: false, known_check_run: Some(id) },
        ) == UpdateCheckAction::<Seq<char>>::Recheck(id),
        update_check_step(
            false,
            UpdateCheckEvent::Begun { cancellation_pending: false, known_check_run: Some(id) },
        ) == UpdateCheckAction::<Seq<char>>::FetchToken(id),
        update_check_step(
            rechecks,
            UpdateCheckEvent::Begun { cancellation_pending: false, known_check_run: None },
        ) is Ensure,
        update_check_step(rechecks, UpdateCheckEvent::Ensured(Ok(Some(id)))) == update_check_step(
            rechecks,
            UpdateCheckEvent::Begun { cancellation_pending: false, known_check_run: Some(id) },
        ),
        update_check_step(
            rechecks,
            UpdateCheckEvent::Rechecked { cancellation_pending: false, check_run_id: id },
        ) == UpdateCheckAction::<Seq<char>>::FetchToken(id),
        update_check_step(
            rechecks,
            UpdateCheckEvent::Token { outcome: Ok(()), check_run_id: id },
        ) == UpdateCheckAction::<Seq<char>>::Update(id),
        update_check_step(rechecks, UpdateCheckEvent::Updated(Ok(()))) is Finish,
{
}

} // verus!
