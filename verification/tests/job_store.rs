use foxguard::github_app::dispatcher::{
    DispatchOutcome, GitHubPullRequest, GitHubPullRequestHead, GitHubRepository,
    PullRequestDispatcher, PullRequestJob, PullRequestKey,
};
use foxguard::github_app::pull_request_job_store::{
    retry_not_before_unix_ms, stray_candidates, temp_file_prefix, validate_operator_path,
    validate_store_path, CheckRunAttachment, CheckRunCreationState, PersistOutcome,
    PullRequestJobAdmission, PullRequestJobInput, PullRequestJobRegistry, PullRequestJobStatus,
    PullRequestJobStore, PullRequestJobStoreError, SiblingFile, StoreStep, StoredPullRequestJob,
};

const PATH: &str = "/var/lib/foxguard/pull-request-jobs.json";

/// A store with a disk in memory, on which writes and syncs can be made to fail.
struct Disk {
    store: PullRequestJobStore,
    saved: PullRequestJobRegistry,
    fail_save: bool,
    fail_post_rename_sync: bool,
    fail_parent_sync: bool,
}

fn io(message: &str) -> PullRequestJobStoreError {
    PullRequestJobStoreError::Io(message.to_string())
}

impl Disk {
    fn open(saved: PullRequestJobRegistry) -> Disk {
        Disk {
            store: PullRequestJobStore::new(PATH.to_string(), saved.clone()),
            saved,
            fail_save: false,
            fail_post_rename_sync: false,
            fail_parent_sync: false,
        }
    }

    fn new() -> Disk {
        Disk::open(PullRequestJobRegistry::default())
    }

    fn reopen(self) -> Disk {
        Disk::open(self.saved)
    }

    fn run<T>(
        &mut self,
        step: impl Fn(&PullRequestJobStore) -> StoreStep<T>,
    ) -> Result<T, PullRequestJobStoreError> {
        loop {
            match step(&self.store) {
                StoreStep::SyncParent => {
                    let outcome = if self.fail_parent_sync {
                        self.fail_parent_sync = false;
                        Err(io("parent sync"))
                    } else {
                        Ok(())
                    };
                    self.store.parent_synced(outcome)?;
                }
                StoreStep::Done(result) => return Ok(result),
                StoreStep::Write(candidate, result) => {
                    let outcome = if self.fail_save {
                        self.fail_save = false;
                        PersistOutcome::NotWritten(io("save"))
                    } else {
                        self.saved = candidate.clone();
                        if self.fail_post_rename_sync {
                            self.fail_post_rename_sync = false;
                            PersistOutcome::Unsynced(io("sync"))
                        } else {
                            PersistOutcome::Saved
                        }
                    };
                    return self.store.commit(candidate, result, outcome);
                }
            }
        }
    }

    fn accept(
        &mut self,
        delivery_id: &str,
        head_sha: &str,
    ) -> Result<PullRequestJobAdmission, PullRequestJobStoreError> {
        self.run(|store| store.accept(job(delivery_id, head_sha)))
    }

    fn accepted_job(&mut self, delivery_id: &str, head_sha: &str) -> StoredPullRequestJob {
        match self.accept(delivery_id, head_sha).expect("job should persist") {
            PullRequestJobAdmission::Accepted { job, .. } => *job,
            PullRequestJobAdmission::DuplicateDelivery => panic!("new delivery should be accepted"),
        }
    }
}

fn job(delivery_id: &str, head_sha: &str) -> PullRequestJobInput {
    PullRequestJobInput {
        delivery_id: delivery_id.to_string(),
        action: "synchronize".to_string(),
        installation_id: 42,
        repository: "octo-org/app".to_string(),
        pull_request: 7,
        head_sha: head_sha.to_string(),
        clone_url: "https://github.com/octo-org/app.git".to_string(),
    }
}

#[test]
fn restart_recovers_running_job_as_queued() {
    let mut disk = Disk::new();
    let job = disk.accepted_job("delivery-1", "head-1");
    disk.run(|store| store.mark_running(&job.delivery_id)).expect("job should become running");

    let mut restarted = disk.reopen();
    let recovered =
        restarted.run(|store| store.recover_non_terminal()).expect("recovery should persist");
    assert_eq!(recovered.queued.len(), 1);
    assert_eq!(recovered.queued[0].delivery_id, "delivery-1");
    assert_eq!(recovered.queued[0].status, PullRequestJobStatus::Queued);
    assert_eq!(recovered.queued[0].attempts, 1);
}

#[test]
fn failed_save_leaves_delivery_retryable_and_durable() {
    let mut disk = Disk::new();
    disk.fail_save = true;
    assert!(disk.accept("delivery-1", "head-1").is_err());
    assert!(disk.store.queued_jobs().is_empty());

    let mut restarted = disk.reopen();
    assert!(matches!(
        restarted.accept("delivery-1", "head-1").expect("retry should be admitted"),
        PullRequestJobAdmission::Accepted { .. }
    ));

    let durable = restarted.reopen();
    assert_eq!(durable.store.queued_jobs().len(), 1);
}

#[test]
fn post_rename_sync_failure_adopts_the_visible_candidate_before_retrying() {
    let mut disk = Disk::new();
    disk.fail_post_rename_sync = true;
    let error = disk
        .accept("delivery-1", "head-1")
        .expect_err("the caller must learn that the parent directory sync needs retrying");
    assert!(error.state_transition_applied());
    assert_eq!(disk.store.queued_jobs().len(), 1);
    assert!(matches!(
        disk.accept("delivery-1", "head-1")
            .expect("a retry should see the already-renamed delivery"),
        PullRequestJobAdmission::DuplicateDelivery
    ));
    assert!(matches!(
        disk.run(|store| {
            let mut later_job = job("delivery-2", "head-2");
            later_job.pull_request = 8;
            store.accept(later_job)
        })
        .expect("a later write should sync first and preserve the candidate"),
        PullRequestJobAdmission::Accepted { .. }
    ));

    let restarted = disk.reopen();
    let deliveries: Vec<_> =
        restarted.store.queued_jobs().into_iter().map(|job| job.delivery_id).collect();
    assert_eq!(deliveries, ["delivery-1", "delivery-2"]);
}

#[test]
fn failed_transition_does_not_mutate_in_memory_job_state() {
    let mut disk = Disk::new();
    let job = disk.accepted_job("delivery-1", "head-1");
    disk.fail_save = true;
    let error = disk
        .run(|store| store.mark_running(&job.delivery_id))
        .expect_err("pre-write failure must be reported");
    assert!(!error.state_transition_applied());
    assert_eq!(disk.store.queued_jobs()[0].status, PullRequestJobStatus::Queued);
    assert!(disk
        .run(|store| store.mark_running(&job.delivery_id))
        .expect("retry should persist")
        .is_some());
}

#[test]
fn post_rename_failure_preserves_applied_running_and_requeue_transitions() {
    let mut disk = Disk::new();
    let job = disk.accepted_job("delivery-1", "head-1");

    disk.fail_post_rename_sync = true;
    let error = disk
        .run(|store| store.mark_running(&job.delivery_id))
        .expect_err("post-rename sync failure should be surfaced");
    assert!(error.state_transition_applied());
    assert_eq!(
        disk.store
            .job(&job.delivery_id)
            .expect("applied running job should remain visible")
            .status,
        PullRequestJobStatus::Running
    );

    disk.run(|store| {
        store.mark_retry_pending(&job.delivery_id, "terminal check update failed".to_string(), 0)
    })
    .expect("the next transition should retry the parent sync");
    disk.fail_post_rename_sync = true;
    let error = disk
        .run(|store| store.requeue_due_retry_pending(u64::MAX))
        .expect_err("post-rename sync failure should be surfaced");
    assert!(error.state_transition_applied());
    assert_eq!(
        disk.store.job(&job.delivery_id).expect("applied requeue should remain visible").status,
        PullRequestJobStatus::Queued
    );
}

#[test]
fn applied_running_survives_repeated_parent_sync_failure_until_requeued() {
    let mut disk = Disk::new();
    let job = disk.accepted_job("delivery-1", "head-1");

    disk.fail_post_rename_sync = true;
    let error = disk
        .run(|store| store.mark_running(&job.delivery_id))
        .expect_err("the running transition should report the post-rename sync failure");
    assert!(error.state_transition_applied());
    disk.fail_parent_sync = true;
    assert!(disk
        .run(|store| {
            store.mark_retry_pending(&job.delivery_id, "terminal update failed".to_string(), 0)
        })
        .is_err());
    assert_eq!(
        disk.store
            .job(&job.delivery_id)
            .expect("applied running job should remain visible")
            .status,
        PullRequestJobStatus::Running
    );

    let recovered = disk
        .run(|store| store.requeue_abandoned_running(std::slice::from_ref(&job.delivery_id)))
        .expect("a later parent sync should requeue the abandoned running job");
    assert_eq!(recovered.len(), 1);
    assert_eq!(recovered[0].status, PullRequestJobStatus::Queued);
}

#[test]
fn newer_head_waits_for_external_cancellation_before_terminalizing() {
    let mut disk = Disk::new();
    let first = disk.accepted_job("delivery-1", "head-1");
    assert!(matches!(
        disk.run(|store| store.attach_check_run_id(&first.delivery_id, 91))
            .expect("attachment should persist"),
        CheckRunAttachment::Attached(_)
    ));
    let cancellation_pending =
        match disk.accept("delivery-2", "head-2").expect("newer delivery should persist") {
            PullRequestJobAdmission::Accepted { cancellation_pending, .. } => cancellation_pending,
            PullRequestJobAdmission::DuplicateDelivery => {
                panic!("newer delivery should be accepted")
            }
        };
    assert_eq!(cancellation_pending.len(), 1);
    assert_eq!(cancellation_pending[0].status, PullRequestJobStatus::CancellationPending);
    assert_eq!(cancellation_pending[0].check_run_id, Some(91));
    assert!(disk
        .run(|store| store.mark_superseded(&first.delivery_id))
        .expect("terminal cancellation should persist")
        .is_some());
    assert!(disk.store.cancellation_pending_jobs().is_empty());
}

#[test]
fn cancellation_pending_check_survives_restart_for_reconciliation() {
    let mut disk = Disk::new();
    let first = disk.accepted_job("delivery-1", "head-1");
    disk.run(|store| store.attach_check_run_id(&first.delivery_id, 91))
        .expect("attachment should persist");
    let _ = disk.accepted_job("delivery-2", "head-2");

    let mut restarted = disk.reopen();
    let recovered =
        restarted.run(|store| store.recover_non_terminal()).expect("recovery should persist");
    assert_eq!(recovered.cancellation_pending.len(), 1);
    assert_eq!(recovered.cancellation_pending[0].delivery_id, "delivery-1");
    assert_eq!(recovered.cancellation_pending[0].check_run_id, Some(91));
}

#[test]
fn late_check_attachment_after_supersession_requests_cancellation() {
    let mut disk = Disk::new();
    let first = disk.accepted_job("delivery-1", "head-1");
    let _ = disk.accepted_job("delivery-2", "head-2");
    let attachment = disk
        .run(|store| store.attach_check_run_id(&first.delivery_id, 91))
        .expect("late attachment should persist");
    let CheckRunAttachment::CancellationPending(job) = attachment else {
        panic!("late attachment must be cancelled");
    };
    assert_eq!(job.check_run_id, Some(91));
    assert_eq!(job.status, PullRequestJobStatus::CancellationPending);
}

#[test]
fn rejects_traversal_store_path() {
    assert!(validate_store_path("../jobs.json").is_err());
}

#[test]
fn store_paths_are_judged() {
    assert_eq!(validate_store_path("/var/lib/jobs.json"), Ok(()));
    assert_eq!(
        validate_store_path("/var/../jobs.json").map_err(|e| e.message()),
        Err("invalid pull-request job store path: path must not contain traversal components"
            .to_string())
    );
    assert_eq!(
        validate_operator_path("jobs.json").map_err(|e| e.message()),
        Err("invalid pull-request job store path: FOXGUARD_PULL_REQUEST_JOBS_PATH must be absolute"
            .to_string())
    );
    assert!(validate_store_path("/").is_err());
}

#[test]
fn errors_have_words() {
    let io_error = PullRequestJobStoreError::Io("disk".to_string());
    assert_eq!(io_error.message(), "pull-request job store I/O failed: disk");
    assert!(!io_error.state_transition_applied());
    assert!(!PullRequestJobStoreError::Json("x".to_string()).state_transition_applied());
    let wrapped = PullRequestJobStoreError::PostRenameDirectorySync(Box::new(io_error));
    assert!(wrapped.state_transition_applied());
    assert!(wrapped.message().contains("disk"));
}

#[test]
fn retries_back_off() {
    assert_eq!(retry_not_before_unix_ms(0, 1), 1_000);
    assert_eq!(retry_not_before_unix_ms(0, 2), 2_000);
    assert_eq!(retry_not_before_unix_ms(5, 6), 32_005);
    assert_eq!(retry_not_before_unix_ms(0, 7), 60_000);
    assert_eq!(retry_not_before_unix_ms(0, 100), 60_000);
    assert_eq!(retry_not_before_unix_ms(u64::MAX, 1), u64::MAX);
}

#[test]
fn retries_wait_until_they_are_due() {
    let mut disk = Disk::new();
    let job = disk.accepted_job("delivery-1", "head-1");
    disk.run(|store| store.mark_running(&job.delivery_id)).expect("running");
    disk.run(|store| store.mark_retry_pending(&job.delivery_id, "e".to_string(), 100))
        .expect("retry pending");
    let early = disk.run(|store| store.requeue_due_retry_pending(1_099)).expect("too early");
    assert!(early.is_empty());
    let due = disk.run(|store| store.requeue_due_retry_pending(1_100)).expect("due");
    assert_eq!(due.len(), 1);
}

#[test]
fn finished_jobs_do_not_change() {
    let mut disk = Disk::new();
    let job = disk.accepted_job("delivery-1", "head-1");
    disk.run(|store| store.mark_running(&job.delivery_id)).expect("running");
    let done = disk
        .run(|store| store.mark_completed(&job.delivery_id, 3))
        .expect("completed")
        .expect("a job");
    assert_eq!(done.status, PullRequestJobStatus::Findings);
    assert!(disk.run(|store| store.mark_running(&job.delivery_id)).expect("no change").is_none());
    assert!(disk
        .run(|store| store.mark_failed(&job.delivery_id, "late".to_string()))
        .expect("no change")
        .is_none());
    assert!(matches!(
        disk.run(|store| store.attach_check_run_id(&job.delivery_id, 1)).expect("no change"),
        CheckRunAttachment::IgnoredTerminal
    ));
    assert!(matches!(
        disk.run(|store| store.attach_check_run_id("unknown", 1)).expect("no change"),
        CheckRunAttachment::Missing
    ));
}

#[test]
fn check_run_creation_is_recorded_before_it_happens() {
    let mut disk = Disk::new();
    let job = disk.accepted_job("delivery-1", "head-1");
    let started = disk
        .run(|store| store.mark_check_run_creation_started(&job.delivery_id))
        .expect("started")
        .expect("a job");
    assert_eq!(started.check_run_creation, CheckRunCreationState::Creating);
    let reset = disk
        .run(|store| store.reset_check_run_creation(&job.delivery_id))
        .expect("reset")
        .expect("a job");
    assert_eq!(reset.check_run_creation, CheckRunCreationState::NotStarted);
}

#[test]
fn strays_are_tried_latest_first() {
    let prefix = temp_file_prefix(PATH).expect("prefix should build");
    let file = |name: &str, is_file: bool, modified: u64| SiblingFile {
        name: name.to_string(),
        is_file,
        modified,
    };
    let strays = stray_candidates(
        vec![
            file(&format!("{prefix}a"), true, 1),
            file("other", true, 9),
            file(&format!("{prefix}b"), true, 3),
            file(&format!("{prefix}c"), false, 5),
        ],
        &prefix,
    );
    let names: Vec<String> = strays.into_iter().map(|f| f.name).collect();
    assert_eq!(names, vec![format!("{prefix}b"), format!("{prefix}a")]);
}

#[test]
fn registries_must_be_sorted() {
    let mut disk = Disk::new();
    disk.accepted_job("b", "head-1");
    let mut jobs = disk.saved.jobs;
    assert!(PullRequestJobRegistry::from_jobs(1, 2, jobs.clone()).is_some());
    let copy = jobs[0].clone();
    jobs.push(copy);
    assert!(PullRequestJobRegistry::from_jobs(1, 2, jobs).is_none());
}

// ---------------------------------------------------------------------------
// The dispatcher
// ---------------------------------------------------------------------------

fn repository(name: &str) -> GitHubRepository {
    GitHubRepository {
        clone_url: format!("https://github.com/{name}.git"),
        html_url: format!("https://github.com/{name}"),
        full_name: name.to_string(),
    }
}

fn pull_request_job(delivery: &str, name: &str, number: u64, head_sha: &str) -> PullRequestJob {
    PullRequestJob {
        delivery: delivery.to_string(),
        action: "synchronize".to_string(),
        installation_id: 1,
        pull_request: Some(GitHubPullRequest {
            number,
            head: GitHubPullRequestHead { sha: head_sha.to_string(), repo: repository(name) },
        }),
        repository: Some(repository(name)),
        key: PullRequestKey { repository: name.to_string(), number },
    }
}

fn dispatcher() -> PullRequestDispatcher {
    PullRequestDispatcher::new(PullRequestJobStore::new(
        PATH.to_string(),
        PullRequestJobRegistry::default(),
    ))
}

fn take<T>(store: &mut PullRequestJobStore, step: StoreStep<T>) -> T {
    match step {
        StoreStep::SyncParent => panic!("nothing is to be synced"),
        StoreStep::Done(result) => result,
        StoreStep::Write(candidate, result) => {
            store.commit(candidate, result, PersistOutcome::Saved).expect("saved")
        }
    }
}

fn offer(dispatcher: &mut PullRequestDispatcher, job: PullRequestJob) -> DispatchOutcome {
    let step = dispatcher.accept_delivery(job).expect("a pull request");
    take(&mut dispatcher.jobs, step)
}

fn set_running(dispatcher: &mut PullRequestDispatcher, delivery: &str) -> bool {
    let step = dispatcher.jobs.mark_running(delivery);
    take(&mut dispatcher.jobs, step).is_some()
}

#[test]
fn dispatcher_keeps_newer_head_durable_until_active_scan_completes() {
    let mut dispatcher = dispatcher();
    let first = pull_request_job("delivery-1", "owner/repo", 7, "head-1");
    match offer(&mut dispatcher, first) {
        DispatchOutcome::Accepted { coalesced: false, .. } => {}
        outcome => panic!("first delivery should persist: {outcome:?}"),
    }
    let mut sent = dispatcher.schedule(1);
    assert_eq!(sent.len(), 1);
    let active = sent.remove(0);
    assert!(set_running(&mut dispatcher, &active.delivery));

    let second = pull_request_job("delivery-2", "owner/repo", 7, "head-2");
    match offer(&mut dispatcher, second) {
        DispatchOutcome::Accepted { coalesced: true, .. } => {}
        outcome => panic!("newer head should coalesce: {outcome:?}"),
    }
    assert!(dispatcher.schedule(1).is_empty(), "active key blocks a second scan");

    dispatcher.complete(&active.key, &active.delivery);
    let mut sent = dispatcher.schedule(1);
    let follow_up = sent.remove(0);
    let head = follow_up.pull_request.as_ref().map(|pull_request| pull_request.head.sha.as_str());
    assert_eq!(head, Some("head-2"));
}

#[test]
fn dispatcher_requeues_abandoned_running_work_only_after_worker_completion() {
    let mut dispatcher = dispatcher();
    let job = pull_request_job("delivery-1", "owner/repo", 7, "head-1");
    assert!(matches!(offer(&mut dispatcher, job), DispatchOutcome::Accepted { .. }));
    let active = dispatcher.schedule(1).remove(0);
    assert!(set_running(&mut dispatcher, &active.delivery));
    assert!(dispatcher.begin_requeue_abandoned().is_none());
    assert!(dispatcher.schedule(1).is_empty(), "an active worker must not be duplicated");

    dispatcher.complete(&active.key, &active.delivery);
    let step = dispatcher.begin_requeue_abandoned().expect("something was abandoned");
    let jobs = take(&mut dispatcher.jobs, step);
    assert_eq!(dispatcher.finish_requeue_abandoned(Ok(jobs)), Ok(1));
    assert_eq!(dispatcher.schedule(1).remove(0).delivery, "delivery-1");
}

#[test]
fn dispatcher_dedupes_persisted_delivery_ids() {
    let mut dispatcher = dispatcher();
    let first = pull_request_job("same-delivery", "owner/repo", 7, "head-1");
    assert!(matches!(offer(&mut dispatcher, first), DispatchOutcome::Accepted { .. }));
    let duplicate = pull_request_job("same-delivery", "owner/repo", 7, "head-1");
    assert!(matches!(offer(&mut dispatcher, duplicate), DispatchOutcome::DuplicateDelivery));
}

#[test]
fn concurrent_newer_delivery_and_late_check_attachment_retain_cancellation() {
    for attach_first in [true, false] {
        let mut dispatcher = dispatcher();
        offer(&mut dispatcher, pull_request_job("delivery-1", "owner/repo", 7, "head-1"));
        for turn in [attach_first, !attach_first] {
            if turn {
                let step = dispatcher.jobs.attach_check_run_id("delivery-1", 91);
                assert!(matches!(
                    take(&mut dispatcher.jobs, step),
                    CheckRunAttachment::Attached(_) | CheckRunAttachment::CancellationPending(_)
                ));
            } else {
                let newer = pull_request_job("delivery-2", "owner/repo", 7, "head-2");
                assert!(matches!(
                    offer(&mut dispatcher, newer),
                    DispatchOutcome::Accepted { .. }
                ));
            }
        }
        let pending = dispatcher.jobs.cancellation_pending_jobs();
        assert_eq!(pending.len(), 1);
        assert_eq!(pending[0].delivery_id, "delivery-1");
        assert_eq!(pending[0].check_run_id, Some(91));
        assert!(dispatcher.is_cancellation_pending("delivery-1"));
    }
}

#[test]
fn deliveries_without_a_pull_request_are_refused() {
    let mut job = pull_request_job("delivery-1", "owner/repo", 7, "head-1");
    job.pull_request = None;
    assert_eq!(
        dispatcher().accept_delivery(job).map(|_| ()),
        Err("pull_request payload missing PR data".to_string())
    );
}

#[test]
fn an_error_that_says_it_was_applied_is_taken_at_its_word() {
    let mut store = PullRequestJobStore::new(PATH.to_string(), PullRequestJobRegistry::default());
    let StoreStep::Write(candidate, admission) = store.accept(job("delivery-1", "head-1")) else {
        panic!("a new delivery is to be written");
    };
    let applied = PullRequestJobStoreError::PostRenameDirectorySync(Box::new(io("sync")));
    let error = store
        .commit(candidate, admission, PersistOutcome::NotWritten(applied))
        .expect_err("the sync failed");
    assert!(error.state_transition_applied());
    assert!(store.directory_sync_pending);
    assert_eq!(store.queued_jobs().len(), 1);
}
