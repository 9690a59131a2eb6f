use foxguard::github_app::admission::{
    next_admission_action, next_token_action, AdmissionAction, AdmissionEvent, TokenAction,
    TokenEvent,
};
use foxguard::github_app::dispatcher::{
    repository_web_address, settle_requeue, settle_transition, AppliedState, DispatchOutcome,
    GitHubPullRequest, GitHubPullRequestHead, GitHubRepository, PullRequestDispatcher,
    PullRequestJob, PullRequestKey,
};
use foxguard::github_app::lifecycle::{
    complete_failed_job_check, ensured_check_run, mark_job_check_running, next_ensure_check_action,
    next_process_action, next_reconcile_action, plan_worker, EnsureCheckAction, EnsureCheckEvent,
    ProcessAction, ProcessEvent, PullRequestProcessError, ReconcileAction, ReconcileEvent,
    UpdateCheckAction, UpdateCheckEvent, WorkerAction, WorkerEvent,
};
use foxguard::github_app::pull_request_job_store::{
    CheckRunAttachment, CheckRunCreationState, PersistOutcome, PullRequestJobAdmission,
    PullRequestJobInput, PullRequestJobRegistry, PullRequestJobStatus, PullRequestJobStore,
    PullRequestJobStoreError, StoreStep, StoredPullRequestJob,
};
use foxguard::github_app::review::{
    check_create_definitely_did_not_happen, HttpFailure, ReviewError,
};
use foxguard::github_app::webhook::{
    delivery_of, plan_webhook, read_installation, read_pull_request, EventKind, GitHubInstallation,
    GitHubWebhookPayload, WebhookAction, WebhookEvent,
};

const PATH: &str = "/var/lib/foxguard/pull-request-jobs.json";
const H1: &str = "0123456789abcdef0123456789abcdef01234567";
const H2: &str = "89abcdef0123456789abcdef0123456789abcdef";

/// What the other side answers to one request.
enum Reply {
    /// The check run that a lookup finds.
    Found(Option<u64>),
    Created(u64),
    Updated,
    Head(&'static str),
    /// The request is answered with an error.
    Status(u16),
    /// No connection is made.
    Refused,
    /// The request gets through, its answer does not.
    Disconnected,
}

/// A dispatcher with a disk in memory and an other side that answers by a script.
struct Rig {
    dispatcher: PullRequestDispatcher,
    fail_save: bool,
    replies: Vec<Reply>,
    served: usize,
    now: u64,
}

fn failure(status: Option<u16>, connect: bool) -> ReviewError {
    ReviewError::Http(HttpFailure { message: "request failed".to_string(), connect, status })
}

impl Rig {
    fn new(registry: PullRequestJobRegistry, replies: Vec<Reply>) -> Rig {
        let store = PullRequestJobStore::new(PATH.to_string(), registry);
        Rig {
            dispatcher: PullRequestDispatcher::new(store),
            fail_save: false,
            replies,
            served: 0,
            now: 1_000_000,
        }
    }

    fn restart(self, replies: Vec<Reply>) -> Rig {
        Rig::new(self.dispatcher.jobs.registry, replies)
    }

    fn reply(&mut self) -> Reply {
        assert!(!self.replies.is_empty(), "no further request is expected");
        self.served += 1;
        self.replies.remove(0)
    }

    fn carry_out<T>(&mut self, step: StoreStep<T>) -> Result<T, PullRequestJobStoreError> {
        match step {
            StoreStep::SyncParent => panic!("nothing is to be synced"),
            StoreStep::Done(result) => Ok(result),
            StoreStep::Write(candidate, result) => {
                let outcome = if self.fail_save {
                    PersistOutcome::NotWritten(PullRequestJobStoreError::Io("save".to_string()))
                } else {
                    PersistOutcome::Saved
                };
                self.dispatcher.jobs.commit(candidate, result, outcome)
            }
        }
    }

    fn change<T>(&mut self, step: StoreStep<T>) -> Result<T, String> {
        self.carry_out(step).map_err(|error| error.message())
    }

    fn accept(&mut self, delivery_id: &str, head_sha: &str) -> StoredPullRequestJob {
        let step = self.dispatcher.jobs.accept(PullRequestJobInput {
            delivery_id: delivery_id.to_string(),
            action: "synchronize".to_string(),
            installation_id: 1,
            repository: "owner/repo".to_string(),
            pull_request: 7,
            head_sha: head_sha.to_string(),
            clone_url: "https://github.com/owner/repo.git".to_string(),
        });
        match self.change(step).expect("delivery should persist") {
            PullRequestJobAdmission::Accepted { job, .. } => *job,
            PullRequestJobAdmission::DuplicateDelivery => panic!("delivery must be accepted"),
        }
    }

    fn mark_running(&mut self, id: &str) -> Option<StoredPullRequestJob> {
        let step = self.dispatcher.jobs.mark_running(id);
        let outcome = self.carry_out(step);
        let applied = self.dispatcher.jobs.job(id);
        settle_transition(outcome, applied, AppliedState::Running)
            .expect("running transition should persist")
    }

    fn attach(&mut self, id: &str, check_run_id: u64) -> Result<CheckRunAttachment, String> {
        let step = self.dispatcher.jobs.attach_check_run_id(id, check_run_id);
        self.change(step)
    }

    fn mark_retry_pending(&mut self, id: &str, error: String) -> StoredPullRequestJob {
        let step = self.dispatcher.jobs.mark_retry_pending(id, error, self.now);
        self.change(step)
            .expect("retry transition should persist")
            .expect("running job should become retryable")
    }

    fn supersede(&mut self, id: &str) -> Result<(), String> {
        let step = self.dispatcher.jobs.mark_superseded(id);
        self.change(step).map(|_| ())
    }

    fn pending(&self) -> Vec<StoredPullRequestJob> {
        self.dispatcher.jobs.cancellation_pending_jobs()
    }

    fn look_up(&mut self) -> Result<Option<u64>, String> {
        match self.reply() {
            Reply::Found(id) => Ok(id),
            Reply::Status(status) => Err(failure(Some(status), false).message()),
            _ => panic!("a lookup is not answered so"),
        }
    }

    fn update(&mut self) -> Result<(), String> {
        match self.reply() {
            Reply::Updated => Ok(()),
            Reply::Status(status) => Err(failure(Some(status), false).message()),
            _ => panic!("an update is not answered so"),
        }
    }

    fn reconcile(&mut self, now_unix_ms: u64, force: bool) {
        for job in self.pending() {
            let id = job.delivery_id.as_str();
            let mut event = ReconcileEvent::Picked { force, now_unix_ms };
            loop {
                event = match next_reconcile_action(&job, event) {
                    ReconcileAction::Skip | ReconcileAction::Done => break,
                    ReconcileAction::Lock => ReconcileEvent::Locked {
                        still_pending: self.dispatcher.is_cancellation_pending(id),
                    },
                    ReconcileAction::FetchToken => ReconcileEvent::Token(Ok(())),
                    ReconcileAction::LookUp => ReconcileEvent::LookedUp(self.look_up()),
                    ReconcileAction::Attach(check_run_id) => ReconcileEvent::Attached {
                        check_run_id,
                        outcome: self.attach(id, check_run_id).map(|_| ()),
                    },
                    ReconcileAction::SupersedeWithoutCheck => {
                        ReconcileEvent::SupersededWithoutCheck(self.supersede(id))
                    }
                    ReconcileAction::Cancel(_) => ReconcileEvent::Cancelled(self.update()),
                    ReconcileAction::Supersede => ReconcileEvent::Superseded(self.supersede(id)),
                    ReconcileAction::Defer(reason) => {
                        let step =
                            self.dispatcher.jobs.defer_cancellation_retry(id, reason, self.now);
                        self.change(step).expect("the delay should persist");
                        break;
                    }
                };
            }
        }
    }

    fn ensure_check(
        &mut self,
        job: &StoredPullRequestJob,
    ) -> Result<Option<CheckRunAttachment>, String> {
        let id = job.delivery_id.as_str();
        let mut attachment = None;
        let mut event = EnsureCheckEvent::Begun {
            cancellation_pending: self.dispatcher.is_cancellation_pending(id),
        };
        loop {
            event = match next_ensure_check_action(job, event) {
                EnsureCheckAction::GiveUp => return Ok(None),
                EnsureCheckAction::FetchToken => EnsureCheckEvent::Token(Ok(())),
                EnsureCheckAction::LookUp => EnsureCheckEvent::LookedUp(self.look_up()),
                EnsureCheckAction::RecordIntent => {
                    let step = self.dispatcher.jobs.mark_check_run_creation_started(id);
                    EnsureCheckEvent::IntentRecorded(self.change(step).map(|job| job.is_some()))
                }
                EnsureCheckAction::Create => {
                    let error = match self.reply() {
                        Reply::Created(check_run_id) => {
                            event = EnsureCheckEvent::Created(check_run_id);
                            continue;
                        }
                        Reply::Refused => failure(None, true),
                        Reply::Disconnected => failure(None, false),
                        Reply::Status(status) => failure(Some(status), false),
                        _ => panic!("a creation is not answered so"),
                    };
                    EnsureCheckEvent::CreationFailed {
                        surely_not_created: check_create_definitely_did_not_happen(&error),
                        error: error.message(),
                    }
                }
                EnsureCheckAction::ResetIntentAndFail(error) => {
                    let step = self.dispatcher.jobs.reset_check_run_creation(id);
                    self.change(step).expect("the reset should persist");
                    return Err(error);
                }
                EnsureCheckAction::Fail(error) => return Err(error),
                EnsureCheckAction::Attach(check_run_id) => EnsureCheckEvent::Attached(
                    self.attach(id, check_run_id).map(|a| attachment = Some(a)),
                ),
                EnsureCheckAction::Finish => return Ok(attachment),
            };
        }
    }

    fn update_check(
        &mut self,
        job: &StoredPullRequestJob,
        next: fn(UpdateCheckEvent) -> UpdateCheckAction<String>,
    ) -> Result<bool, String> {
        let id = job.delivery_id.as_str();
        let mut event = UpdateCheckEvent::Begun {
            cancellation_pending: self.dispatcher.is_cancellation_pending(id),
            known_check_run: job.check_run_id,
        };
        loop {
            event = match next(event) {
                UpdateCheckAction::Ensure => {
                    UpdateCheckEvent::Ensured(self.ensure_check(job).map(ensured_check_run))
                }
                UpdateCheckAction::Recheck(check_run_id) => UpdateCheckEvent::Rechecked {
                    cancellation_pending: self.dispatcher.is_cancellation_pending(id),
                    check_run_id,
                },
                UpdateCheckAction::FetchToken(check_run_id) => {
                    UpdateCheckEvent::Token { outcome: Ok(()), check_run_id }
                }
                UpdateCheckAction::Update(_) => UpdateCheckEvent::Updated(self.update()),
                UpdateCheckAction::Leave => return Ok(false),
                UpdateCheckAction::Fail(error) => return Err(error),
                UpdateCheckAction::Finish => return Ok(true),
            };
        }
    }

    fn drive_pending_lifecycle(&mut self, now_unix_ms: u64) {
        self.reconcile(now_unix_ms, false);
        let step = self.dispatcher.jobs.requeue_due_retry_pending(now_unix_ms);
        let due = self.carry_out(step);
        if settle_requeue(due).expect("the requeue should persist") > 0 {
            self.dispatcher.schedule(8);
        }
    }

    fn decide(&mut self, job: PullRequestJob) -> Result<DispatchOutcome, PullRequestProcessError> {
        let head = job.pull_request.as_ref().map(|p| p.head.sha.clone());
        let mut job = Some(job);
        let mut outcome = None;
        let mut event = AdmissionEvent::Begun { head: head.clone() };
        loop {
            event = match next_admission_action(event)? {
                AdmissionAction::TakeLock => AdmissionEvent::Locked,
                AdmissionAction::FetchToken => AdmissionEvent::Token(Ok(())),
                AdmissionAction::FetchHead => AdmissionEvent::Head {
                    expected: head.clone().expect("a head is expected"),
                    actual: match self.reply() {
                        Reply::Head(sha) => Ok(sha.to_string()),
                        _ => panic!("a head is not answered so"),
                    },
                },
                AdmissionAction::Dispatch => {
                    let step = self
                        .dispatcher
                        .accept_delivery(job.take().expect("the delivery is dispatched once"));
                    let decided = step.and_then(|step| self.change(step));
                    AdmissionEvent::Dispatched(decided.map(|o| outcome = Some(o)))
                }
                AdmissionAction::Done => return Ok(outcome.expect("the delivery was dispatched")),
            };
        }
    }

    fn webhook(&mut self, genuine: bool, delivery: &str, payload: GitHubWebhookPayload) -> u16 {
        let mut payload = Some(payload);
        let mut status = None;
        let mut next = Some(WebhookEvent::Received { signed: true });
        while let Some(event) = next.take() {
            for action in plan_webhook(&event) {
                match action {
                    WebhookAction::VerifySignature => {
                        next = Some(WebhookEvent::Verified {
                            genuine,
                            kind: EventKind::from_header("pull_request"),
                        });
                    }
                    WebhookAction::ReadPullRequest => {
                        next = payload.as_ref().map(read_pull_request);
                    }
                    WebhookAction::Decide => {
                        let job = payload.take().and_then(|p| delivery_of(p, delivery));
                        let job = job.expect("the payload names a pull request");
                        next = Some(WebhookEvent::Decided(self.decide(job)));
                    }
                    WebhookAction::Schedule => {
                        self.dispatcher.schedule(8);
                    }
                    WebhookAction::CreateQueuedCheck | WebhookAction::Reconcile => {}
                    WebhookAction::Respond(code) => {
                        assert!(status.is_none(), "a delivery is answered once");
                        status = Some(code);
                    }
                    _ => panic!("a pull request is no installation"),
                }
            }
        }
        status.expect("every delivery is answered")
    }
}

fn repository() -> GitHubRepository {
    let clone_url = "https://github.com/owner/repo.git".to_string();
    GitHubRepository {
        html_url: repository_web_address(&clone_url),
        clone_url,
        full_name: "owner/repo".to_string(),
    }
}

fn payload(head_sha: &str) -> GitHubWebhookPayload {
    GitHubWebhookPayload {
        action: Some("synchronize".to_string()),
        installation: Some(GitHubInstallation {
            id: 1,
            account: None,
            repository_selection: None,
        }),
        pull_request: Some(GitHubPullRequest {
            number: 7,
            head: GitHubPullRequestHead { sha: head_sha.to_string(), repo: repository() },
        }),
        repository: Some(repository()),
        repositories: None,
        repositories_added: None,
        repositories_removed: None,
    }
}

fn pull_request_job(delivery: &str, head_sha: &str) -> PullRequestJob {
    let job = delivery_of(payload(head_sha), delivery).expect("a pull request");
    assert_eq!(job.key, PullRequestKey { repository: "owner/repo".to_string(), number: 7 });
    job
}

#[test]
fn persistence_failure_returns_503_and_retry_is_admitted_durably() {
    let mut failing = Rig::new(PullRequestJobRegistry::default(), vec![Reply::Head(H1)]);
    failing.fail_save = true;
    assert_eq!(failing.webhook(true, "delivery-1", payload(H1)), 503);
    assert!(failing.dispatcher.jobs.queued_jobs().is_empty());

    let mut retry = failing.restart(vec![Reply::Head(H1)]);
    assert_eq!(retry.webhook(true, "delivery-1", payload(H1)), 202);
    assert_eq!(retry.dispatcher.jobs.queued_jobs().len(), 1);
}

#[test]
fn delayed_webhook_head_does_not_supersede_authoritative_queued_head() {
    let mut rig = Rig::new(PullRequestJobRegistry::default(), vec![Reply::Head(H2)]);
    rig.accept("current-delivery", H2);
    assert_eq!(rig.webhook(true, "delayed-delivery", payload(H1)), 202);
    assert!(rig.pending().is_empty(), "a delayed webhook must not cancel the current head");
    let queued = rig.dispatcher.jobs.queued_jobs();
    assert_eq!(queued.len(), 1);
    assert_eq!(queued[0].delivery_id, "current-delivery");
    assert_eq!(queued[0].head_sha, H2);
}

#[test]
fn authoritative_lookup_and_admission_are_serialized_per_pull_request() {
    let replies = vec![Reply::Head(H1), Reply::Head(H2)];
    let mut rig = Rig::new(PullRequestJobRegistry::default(), replies);
    for (delivery, head) in [("delivery-h1", H1), ("delivery-h2", H2)] {
        assert!(matches!(
            next_admission_action(AdmissionEvent::Begun { head: Some(head.to_string()) }),
            Ok(AdmissionAction::TakeLock)
        ));
        let outcome = rig.decide(pull_request_job(delivery, head));
        assert!(matches!(outcome, Ok(DispatchOutcome::Accepted { .. })));
    }
    let queued = rig.dispatcher.jobs.queued_jobs();
    assert_eq!(queued.len(), 1);
    assert_eq!(queued[0].delivery_id, "delivery-h2");
    let pending = rig.pending();
    assert_eq!(pending.len(), 1);
    assert_eq!(pending[0].delivery_id, "delivery-h1");
}

#[test]
fn failed_check_cancellation_is_reconciled_after_restart() {
    let mut rig = Rig::new(PullRequestJobRegistry::default(), vec![Reply::Status(503)]);
    rig.accept("delivery-1", H1);
    rig.attach("delivery-1", 91).expect("check attachment should persist");
    rig.accept("delivery-2", H2);
    rig.reconcile(rig.now, true);
    assert_eq!(rig.pending().len(), 1, "a failed external cancellation must remain retryable");

    let mut rig = rig.restart(vec![Reply::Updated]);
    let step = rig.dispatcher.jobs.recover_non_terminal();
    rig.change(step).expect("restart recovery should persist");
    rig.reconcile(rig.now, true);
    assert!(rig.pending().is_empty(), "a successful retry must terminalize the superseded job");
}

#[test]
fn failed_terminal_check_patch_persists_a_retryable_job() {
    let mut rig = Rig::new(PullRequestJobRegistry::default(), vec![Reply::Status(503)]);
    rig.accept("delivery-1", H1);
    let mut running = rig.mark_running("delivery-1").expect("queued job should become running");
    rig.attach("delivery-1", 91).expect("check attachment should persist");
    running.check_run_id = Some(91);

    let error = rig
        .update_check(&running, complete_failed_job_check)
        .expect_err("a rejected terminal check PATCH must be surfaced");
    let retry = rig.mark_retry_pending("delivery-1", error);
    assert_eq!(retry.status, PullRequestJobStatus::RetryPending);

    let mut restarted = rig.restart(vec![]);
    let step = restarted.dispatcher.jobs.recover_non_terminal();
    let recovered = restarted.change(step).expect("retryable job should requeue");
    assert_eq!(recovered.queued.len(), 1);
    assert_eq!(recovered.queued[0].delivery_id, "delivery-1");
}

#[test]
fn lifecycle_driver_requeues_terminal_update_failures_without_restart() {
    let mut rig = Rig::new(PullRequestJobRegistry::default(), vec![]);
    rig.accept("delivery-1", H1);
    rig.mark_running("delivery-1");
    let retry = rig.mark_retry_pending("delivery-1", "terminal PATCH failed".to_string());
    let deadline = retry.retry_not_before_unix_ms.expect("a deadline should persist");

    rig.drive_pending_lifecycle(deadline - 1);
    assert!(rig.mark_running("delivery-1").is_none(), "the deadline is honored");
    rig.drive_pending_lifecycle(deadline);
    let retried = rig.mark_running("delivery-1").expect("retryable job should requeue");
    assert_eq!(retried.attempts, 2);
    let step = rig.dispatcher.jobs.mark_completed("delivery-1", 0);
    let terminal = rig
        .change(step)
        .expect("successful retry should persist terminal state")
        .expect("retried job should terminalize");
    assert_eq!(terminal.status, PullRequestJobStatus::Succeeded);
}

#[test]
fn lifecycle_driver_retries_cancel_after_a_transient_failure_without_restart() {
    let replies = vec![Reply::Status(503), Reply::Updated];
    let mut rig = Rig::new(PullRequestJobRegistry::default(), replies);
    rig.accept("delivery-1", H1);
    rig.attach("delivery-1", 91).expect("check attachment should persist");
    rig.accept("delivery-2", H2);

    rig.reconcile(rig.now, true);
    let retry = rig.pending();
    assert_eq!(retry.len(), 1);
    let deadline = retry[0].retry_not_before_unix_ms.expect("a backoff deadline should persist");
    rig.drive_pending_lifecycle(deadline - 1);
    assert_eq!(rig.served, 1, "the deadline is honored");
    rig.drive_pending_lifecycle(deadline);
    assert!(rig.pending().is_empty());
    assert_eq!(rig.served, 2);
}

#[test]
fn persisted_creating_check_survives_a_lookup_miss_until_it_can_be_cancelled() {
    let replies = vec![Reply::Found(None), Reply::Found(Some(91)), Reply::Updated];
    let mut rig = Rig::new(PullRequestJobRegistry::default(), replies);
    rig.accept("delivery-1", H1);
    let step = rig.dispatcher.jobs.mark_check_run_creation_started("delivery-1");
    rig.change(step).expect("creation intent should persist");
    rig.accept("delivery-2", H2);

    rig.reconcile(rig.now, true);
    let pending = rig.pending();
    assert_eq!(pending.len(), 1);
    assert_eq!(pending[0].check_run_creation, CheckRunCreationState::Creating);
    let deadline = pending[0].retry_not_before_unix_ms.expect("a retry should persist");
    rig.drive_pending_lifecycle(deadline);
    assert!(rig.pending().is_empty());
    assert_eq!(rig.served, 3);
}

#[test]
fn lost_queued_check_create_response_retries_lookup_without_a_second_post() {
    let replies = vec![
        Reply::Found(None),
        Reply::Disconnected,
        Reply::Found(None),
        Reply::Found(None),
    ];
    let mut rig = Rig::new(PullRequestJobRegistry::default(), replies);
    let stored = rig.accept("delivery-1", H1);
    rig.ensure_check(&stored).expect_err("a dropped create response must leave the intent");
    let running = rig.mark_running("delivery-1").expect("queued job should become running");
    let error = rig
        .update_check(&running, mark_job_check_running)
        .expect_err("a creating check that is still absent must retry lookup");
    assert!(error.contains("not yet observable"));
    let retry = rig.mark_retry_pending("delivery-1", error);
    assert_eq!(retry.status, PullRequestJobStatus::RetryPending);
    assert_eq!(retry.check_run_creation, CheckRunCreationState::Creating);
    let deadline = retry.retry_not_before_unix_ms.expect("a deadline should persist");

    rig.drive_pending_lifecycle(deadline);
    let retried = rig.mark_running("delivery-1").expect("retryable job should requeue");
    let error = rig
        .update_check(&retried, mark_job_check_running)
        .expect_err("the retried job must perform another lookup, not another create");
    assert!(error.contains("not yet observable"));
    assert_eq!(rig.served, 4, "only the initial create POST may be sent");
}

#[test]
fn unsubmitted_queued_check_create_resets_intent_before_a_later_successful_post() {
    let replies = vec![Reply::Found(None), Reply::Refused];
    let mut rig = Rig::new(PullRequestJobRegistry::default(), replies);
    let stored = rig.accept("delivery-1", H1);
    rig.ensure_check(&stored).expect_err("a refused create connection must be reported");
    let job = rig.dispatcher.jobs.job("delivery-1").expect("durable job should remain visible");
    assert_eq!(
        job.check_run_creation,
        CheckRunCreationState::NotStarted,
        "a definitely unsubmitted create must clear its durable intent"
    );

    let mut rig = rig.restart(vec![Reply::Found(None), Reply::Created(91)]);
    let queued = rig.dispatcher.jobs.queued_jobs();
    assert_eq!(queued.len(), 1);
    assert!(matches!(
        rig.ensure_check(&queued[0]).expect("a later lookup may safely create the check"),
        Some(CheckRunAttachment::Attached(job)) if job.check_run_id == Some(91)
    ));
    assert_eq!(rig.served, 2);
}

#[test]
fn superseded_delivery_without_an_observable_check_terminalizes_safely() {
    let mut rig = Rig::new(PullRequestJobRegistry::default(), vec![Reply::Found(None)]);
    rig.accept("delivery-1", H1);
    rig.accept("delivery-2", H2);
    rig.reconcile(rig.now, true);
    assert!(rig.pending().is_empty());
    let first = rig.dispatcher.jobs.job("delivery-1").expect("the job is kept");
    assert_eq!(first.status, PullRequestJobStatus::Superseded);
}

#[test]
fn installation_token_with_fetch_dedupes_concurrent_calls() {
    let mut cache: Option<String> = None;
    let mut fetched = 0;
    // All callers look before any of them holds the lock.
    for _ in 0..8 {
        assert!(matches!(next_token_action(TokenEvent::Looked(None)), TokenAction::TakeLock));
    }
    for _ in 0..8 {
        let mut event = TokenEvent::LookedUnderLock(cache.clone());
        let token = loop {
            event = match next_token_action(event) {
                TokenAction::Fetch => {
                    fetched += 1;
                    TokenEvent::Fetched(Ok("deduped-token".to_string()))
                }
                TokenAction::RememberAndUse(token) => {
                    cache = Some(token.clone());
                    break token;
                }
                TokenAction::Use(token) => break token,
                _ => panic!("the lock is held and nothing fails"),
            };
        };
        assert_eq!(token, "deduped-token");
    }
    assert_eq!(fetched, 1, "fetch should only execute once for a single installation");
}

#[test]
fn forged_and_unsigned_deliveries_are_refused() {
    let mut rig = Rig::new(PullRequestJobRegistry::default(), vec![]);
    assert_eq!(rig.webhook(false, "delivery-1", payload(H1)), 401);
    assert_eq!(
        plan_webhook(&WebhookEvent::Received { signed: false }),
        vec![WebhookAction::Respond(401)]
    );
    assert!(rig.dispatcher.jobs.queued_jobs().is_empty());
}

#[test]
fn unreadable_deliveries_are_bad_requests() {
    let refused = vec![WebhookAction::Respond(400)];
    assert_eq!(plan_webhook(&WebhookEvent::Oversized), refused);
    assert_eq!(
        plan_webhook(&WebhookEvent::PullRequestRead {
            valid: false,
            processed: false,
            has_installation: false,
            has_key: false,
        }),
        refused
    );
    assert_eq!(
        plan_webhook(&WebhookEvent::InstallationRead {
            valid: false,
            has_installation: false,
            deleted: false,
        }),
        refused
    );
    assert_eq!(
        plan_webhook(&WebhookEvent::PullRequestRead {
            valid: true,
            processed: false,
            has_installation: true,
            has_key: true,
        }),
        vec![WebhookAction::Respond(202)]
    );
}

#[test]
fn waiting_jobs_come_in_the_order_of_acceptance() {
    let mut rig = Rig::new(PullRequestJobRegistry::default(), vec![]);
    for (delivery_id, pull_request) in [("b", 7), ("a", 8)] {
        let step = rig.dispatcher.jobs.accept(PullRequestJobInput {
            delivery_id: delivery_id.to_string(),
            action: "opened".to_string(),
            installation_id: 1,
            repository: "owner/repo".to_string(),
            pull_request,
            head_sha: H1.to_string(),
            clone_url: "https://github.com/owner/repo.git".to_string(),
        });
        rig.change(step).expect("delivery should persist");
    }
    let queued: Vec<String> =
        rig.dispatcher.jobs.queued_jobs().into_iter().map(|job| job.delivery_id).collect();
    assert_eq!(queued, vec!["b", "a"]);
}

#[test]
fn a_repeated_delivery_is_accepted_without_a_second_job() {
    let replies = vec![Reply::Head(H1), Reply::Head(H1)];
    let mut rig = Rig::new(PullRequestJobRegistry::default(), replies);
    assert_eq!(rig.webhook(true, "delivery-1", payload(H1)), 202);
    assert_eq!(rig.webhook(true, "delivery-1", payload(H1)), 202);
    assert_eq!(rig.dispatcher.jobs.registry.jobs.len(), 1);
}

#[test]
fn installations_that_go_lose_their_token_first() {
    let mut gone = payload(H1);
    gone.action = Some("deleted".to_string());
    assert_eq!(
        plan_webhook(&read_installation(&gone)),
        vec![
            WebhookAction::ForgetToken,
            WebhookAction::PersistInstallation,
            WebhookAction::Respond(202),
        ]
    );
    gone.installation = None;
    assert_eq!(plan_webhook(&read_installation(&gone)), vec![WebhookAction::Respond(202)]);
}

#[test]
fn workers_follow_what_happened() {
    assert_eq!(plan_worker(WorkerEvent::Claimed(Ok(true))), vec![WorkerAction::Announce]);
    assert_eq!(plan_worker(WorkerEvent::Claimed(Ok(false))), vec![WorkerAction::Complete]);
    assert_eq!(
        plan_worker(WorkerEvent::Claimed(Err("disk".to_string()))),
        vec![WorkerAction::Complete]
    );
    assert_eq!(plan_worker(WorkerEvent::Announced(Ok(true))), vec![WorkerAction::Process]);
    assert_eq!(
        plan_worker(WorkerEvent::Announced(Ok(false))),
        vec![WorkerAction::Reconcile, WorkerAction::Complete]
    );
    assert_eq!(
        plan_worker(WorkerEvent::Processed(Ok(3))),
        vec![WorkerAction::MarkCompleted(3), WorkerAction::Complete]
    );
    assert_eq!(
        plan_worker(WorkerEvent::Processed(Err(PullRequestProcessError::StaleHead {
            expected: H1.to_string(),
            actual: H2.to_string(),
        }))),
        vec![
            WorkerAction::MarkCancellationPending(format!(
                "authoritative pull_request head changed from {H1} to {H2}"
            )),
            WorkerAction::Reconcile,
            WorkerAction::Complete,
        ]
    );
    assert_eq!(
        plan_worker(WorkerEvent::Processed(Err(PullRequestProcessError::CheckUpdateFailed(
            "PATCH".to_string()
        )))),
        vec![WorkerAction::MarkRetryPending("PATCH".to_string()), WorkerAction::Complete]
    );
    assert_eq!(
        plan_worker(WorkerEvent::Processed(Err(PullRequestProcessError::Superseded))),
        vec![WorkerAction::Reconcile, WorkerAction::Complete]
    );
    assert_eq!(
        plan_worker(WorkerEvent::Processed(Err(PullRequestProcessError::Failed(
            "scan".to_string()
        )))),
        vec![WorkerAction::ShowFailure("scan".to_string())]
    );
    assert_eq!(
        plan_worker(WorkerEvent::FailureShown { error: "scan".to_string(), outcome: Ok(()) }),
        vec![WorkerAction::MarkFailed("scan".to_string()), WorkerAction::Complete]
    );
    assert_eq!(
        plan_worker(WorkerEvent::FailureShown {
            error: "scan".to_string(),
            outcome: Err("PATCH".to_string()),
        }),
        vec![WorkerAction::MarkRetryPending("PATCH".to_string()), WorkerAction::Complete]
    );
}

#[test]
fn cancelled_jobs_touch_no_check_run() {
    let mut rig = Rig::new(PullRequestJobRegistry::default(), vec![]);
    let first = rig.accept("delivery-1", H1);
    rig.accept("delivery-2", H2);
    assert_eq!(rig.update_check(&first, mark_job_check_running), Ok(false));
    assert_eq!(rig.update_check(&first, complete_failed_job_check), Ok(false));
    assert_eq!(rig.ensure_check(&first), Ok(None));
    assert_eq!(rig.served, 0);
}

#[test]
fn a_superseded_review_is_not_shown() {
    assert!(matches!(
        next_process_action(ProcessEvent::HeadBeforeReview {
            expected: H1.to_string(),
            actual: Ok(H1.to_string()),
            cancellation_pending: true,
        }),
        Err(PullRequestProcessError::Superseded)
    ));
    assert!(matches!(
        next_process_action(ProcessEvent::HeadBeforeReview {
            expected: H1.to_string(),
            actual: Ok(H1.to_string()),
            cancellation_pending: false,
        }),
        Ok(ProcessAction::Review)
    ));
}
