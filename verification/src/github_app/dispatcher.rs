//! Which waiting jobs are handed to workers, and what becomes of them when a worker is done.

use crate::github_app::pull_request_job_store::{
    abandoned_requeued, accepting, displaced_jobs, job_views, lookup, new_job, with_status,
    CheckRunCreationState, JobView, PullRequestJobAdmission, PullRequestJobInput,
    PullRequestJobStatus, PullRequestJobStore, PullRequestJobStoreError, RegistryView, StoreStep,
    StoredPullRequestJob,
};
use crate::text::{before_suffix, lemma_texts_push, owned, same, strip_suffix, texts};
use vstd::prelude::*;

verus! {

// ---------------------------------------------------------------------------
// What a webhook says of a pull request
// ---------------------------------------------------------------------------

#[derive(Debug, PartialEq, Eq)]
pub struct GitHubRepository {
    pub clone_url: String,
    pub html_url: String,
    pub full_name: String,
}

#[derive(Debug, PartialEq, Eq)]
pub struct GitHubPullRequestHead {
    pub sha: String,
    pub repo: GitHubRepository,
}

#[derive(Debug, PartialEq, Eq)]
pub struct GitHubPullRequest {
    pub number: u64,
    pub head: GitHubPullRequestHead,
}

/// Names one pull request.
#[derive(Debug, PartialEq, Eq)]
pub struct PullRequestKey {
    pub repository: String,
    pub number: u64,
}

/// One delivery as it passes through the queue.
#[derive(Debug, PartialEq, Eq)]
pub struct PullRequestJob {
    pub delivery: String,
    pub action: String,
    pub installation_id: u64,
    pub pull_request: Option<GitHubPullRequest>,
    pub repository: Option<GitHubRepository>,
    pub key: PullRequestKey,
}

pub struct RepositoryView {
    pub clone_url: Seq<char>,
    pub html_url: Seq<char>,
    pub full_name: Seq<char>,
}

pub struct PullView {
    pub number: u64,
    pub sha: Seq<char>,
    pub repo: RepositoryView,
}

pub struct KeyView {
    pub repository: Seq<char>,
    pub number: u64,
}

pub struct DeliveryView {
    pub delivery: Seq<char>,
    pub action: Seq<char>,
    pub installation_id: u64,
    pub pull_request: Option<PullView>,
    pub repository: Option<RepositoryView>,
    pub key: KeyView,
}

impl View for GitHubRepository {
    type V = RepositoryView;

    open spec fn view(&self) -> RepositoryView {
        RepositoryView {
            clone_url: self.clone_url@,
            html_url: self.html_url@,
            full_name: self.full_name@,
        }
    }
}

impl View for GitHubPullRequest {
    type V = PullView;

    open spec fn view(&self) -> PullView {
        PullView { number: self.number, sha: self.head.sha@, repo: self.head.repo@ }
    }
}

impl View for PullRequestKey {
    type V = KeyView;

    open spec fn view(&self) -> KeyView {
        KeyView { repository: self.repository@, number: self.number }
    }
}

impl View for PullRequestJob {
    type V = DeliveryView;

    open spec fn view(&self) -> DeliveryView {
        DeliveryView {
            delivery: self.delivery@,
            action: self.action@,
            installation_id: self.installation_id,
            pull_request: match self.pull_request {
                Some(p) => Some(p@),
                None => None,
            },
            repository: match self.repository {
                Some(r) => Some(r@),
                None => None,
            },
            key: self.key@,
        }
    }
}

impl Clone for GitHubRepository {
    fn clone(&self) -> (r: Self)
        ensures
            r@ == self@,
    {
        GitHubRepository {
            clone_url: self.clone_url.clone(),
            html_url: self.html_url.clone(),
            full_name: self.full_name.clone(),
        }
    }
}

impl Clone for GitHubPullRequest {
    fn clone(&self) -> (r: Self)
        ensures
            r@ == self@,
    {
        GitHubPullRequest {
            number: self.number,
            head: GitHubPullRequestHead {
                sha: self.head.sha.clone(),
                repo: self.head.repo.clone(),
            },
        }
    }
}

impl Clone for PullRequestKey {
    fn clone(&self) -> (r: Self)
        ensures
            r@ == self@,
    {
        PullRequestKey { repository: self.repository.clone(), number: self.number }
    }
}

pub open spec fn key_views(v: Seq<PullRequestKey>) -> Seq<KeyView> {
    v.map_values(|k: PullRequestKey| k@)
}

pub open spec fn delivery_views(v: Seq<PullRequestJob>) -> Seq<DeliveryView> {
    v.map_values(|j: PullRequestJob| j@)
}

/// The repository a delivery is about: the one it names, or else the head's.
pub open spec fn target_repository(
    pull_request: PullView,
    repository: Option<RepositoryView>,
) -> RepositoryView {
    match repository {
        Some(r) => r,
        None => pull_request.repo,
    }
}

/// Where the repository of a clone address is shown: the address without its `.git`.
pub open spec fn web_address(clone_url: Seq<char>) -> Seq<char> {
    match before_suffix(clone_url, ".git"@) {
        Some(s) => s,
        None => clone_url,
    }
}

/// Where the repository of a clone address is shown, when nothing else says so.
pub fn repository_web_address(clone_url: &str) -> (r: String)
    ensures
        r@ == web_address(clone_url@),
{
    match strip_suffix(clone_url, ".git") {
        Some(s) => s,
        None => owned(clone_url),
    }
}

/// The pull request that a stored job works on.
pub open spec fn job_key(j: JobView) -> KeyView {
    KeyView { repository: j.repository, number: j.pull_request }
}

/// The delivery that a stored job stands for.
pub open spec fn stored_delivery(j: JobView) -> DeliveryView {
    let repo = RepositoryView {
        clone_url: j.clone_url,
        html_url: web_address(j.clone_url),
        full_name: j.repository,
    };
    DeliveryView {
        delivery: j.delivery_id,
        action: j.action,
        installation_id: j.installation_id,
        pull_request: Some(PullView { number: j.pull_request, sha: j.head_sha, repo }),
        repository: Some(repo),
        key: job_key(j),
    }
}

impl PullRequestJob {
    /// What is stored of the delivery; it must name a pull request.
    pub fn into_store_input(self) -> (r: Result<PullRequestJobInput, String>)
        ensures
            match self@.pull_request {
                None => r matches Err(e) && e@ == "pull_request payload missing PR data"@,
                Some(p) => {
                    &&& r matches Ok(input)
                    &&& input.delivery_id@ == self.delivery@
                    &&& input.action@ == self.action@
                    &&& input.installation_id == self.installation_id
                    &&& input.repository@ == target_repository(p, self@.repository).full_name
                    &&& input.pull_request == p.number
                    &&& input.head_sha@ == p.sha
                    &&& input.clone_url@ == p.repo.clone_url
                },
            },
    {
        match self.pull_request {
            None => Err(owned("pull_request payload missing PR data")),
            Some(pull_request) => {
                let repository: String = match self.repository {
                    Some(r) => r.full_name,
                    None => pull_request.head.repo.full_name.clone(),
                };
                Ok(
                    PullRequestJobInput {
                        delivery_id: self.delivery,
                        action: self.action,
                        installation_id: self.installation_id,
                        repository,
                        pull_request: pull_request.number,
                        head_sha: pull_request.head.sha,
                        clone_url: pull_request.head.repo.clone_url,
                    },
                )
            },
        }
    }

    /// The delivery that a stored job stands for.
    pub fn from_stored(job: &StoredPullRequestJob) -> (r: Self)
        ensures
            r@ == stored_delivery(job@),
    {
        let html_url: String = repository_web_address(job.clone_url.as_str());
        let head_repo = GitHubRepository {
            clone_url: job.clone_url.clone(),
            html_url,
            full_name: job.repository.clone(),
        };
        PullRequestJob {
            delivery: job.delivery_id.clone(),
            action: job.action.clone(),
            installation_id: job.installation_id,
            pull_request: Some(
                GitHubPullRequest {
                    number: job.pull_request,
                    head: GitHubPullRequestHead {
                        sha: job.head_sha.clone(),
                        repo: head_repo.clone(),
                    },
                },
            ),
            repository: Some(head_repo),
            key: PullRequestKey { repository: job.repository.clone(), number: job.pull_request },
        }
    }
}

// ---------------------------------------------------------------------------
// The dispatcher
// ---------------------------------------------------------------------------

/// What is under way.
#[derive(Debug)]
pub struct PullRequestAdmission {
    /// The pull requests that are queued for, or with, a worker. A newer delivery for one of them
    /// waits until the present one is done.
    pub outstanding: Vec<PullRequestKey>,
    /// Deliveries whose worker ended while their job was still marked as running.
    pub abandoned_deliveries: Vec<String>,
}

/// The stored jobs and what is under way.
#[derive(Debug)]
pub struct PullRequestDispatcher {
    pub admission: PullRequestAdmission,
    pub jobs: PullRequestJobStore,
}

/// What became of a delivery.
#[derive(Debug)]
pub enum DispatchOutcome {
    Accepted {
        job: Box<StoredPullRequestJob>,
        cancellation_pending: Vec<StoredPullRequestJob>,
        coalesced: bool,
    },
    DuplicateDelivery,
}

/// The waiting jobs that go to workers, in order: one for each pull request that is not under way,
/// while there is room.
pub open spec fn scheduled(
    queued: Seq<JobView>,
    outstanding: Seq<KeyView>,
    room: nat,
) -> Seq<JobView>
    decreases queued.len(),
{
    if queued.len() == 0 || room == 0 {
        Seq::empty()
    } else if outstanding.contains(job_key(queued.first())) {
        scheduled(queued.drop_first(), outstanding, room)
    } else {
        seq![queued.first()] + scheduled(
            queued.drop_first(),
            outstanding.push(job_key(queued.first())),
            (room - 1) as nat,
        )
    }
}

/// The job of the delivery is marked as running.
pub open spec fn running(jobs: Seq<JobView>) -> spec_fn(Seq<char>) -> bool {
    |id: Seq<char>|
        lookup(jobs, id) matches Some(j) && j.status == PullRequestJobStatus::Running
}

/// What a state must show for a write that failed late to count as done.
#[derive(Debug, Clone, Copy, PartialEq, Eq, Structural)]
pub enum AppliedState {
    Running,
    CreationStarted,
    CreationReset,
}

impl AppliedState {
    pub open spec fn shown_by(self, j: JobView) -> bool {
        match self {
            AppliedState::Running => j.status == PullRequestJobStatus::Running,
            AppliedState::CreationStarted => j.check_run_creation
                == CheckRunCreationState::Creating,
            AppliedState::CreationReset => j.check_run_creation
                == CheckRunCreationState::NotStarted,
        }
    }

    fn is_shown_by(self, j: &StoredPullRequestJob) -> (r: bool)
        ensures
            r == self.shown_by(j@),
    {
        match self {
            AppliedState::Running => j.status == PullRequestJobStatus::Running,
            AppliedState::CreationStarted => j.check_run_creation
                == CheckRunCreationState::Creating,
            AppliedState::CreationReset => j.check_run_creation
                == CheckRunCreationState::NotStarted,
        }
    }
}

/// Takes a transition whose write was put in place, but not synced, as done where the stored job
/// shows it.
pub fn settle_transition(
    outcome: Result<Option<StoredPullRequestJob>, PullRequestJobStoreError>,
    applied: Option<StoredPullRequestJob>,
    expected: AppliedState,
) -> (r: Result<Option<StoredPullRequestJob>, String>)
    ensures
        match outcome {
            Ok(job) => r == Ok::<Option<StoredPullRequestJob>, String>(job),
            Err(error) => if error is PostRenameDirectorySync && applied is Some
                && expected.shown_by(applied.unwrap()@) {
                r == Ok::<Option<StoredPullRequestJob>, String>(applied)
            } else {
                r matches Err(e) && e@ == error.text()
            },
        },
{
    match outcome {
        Ok(job) => Ok(job),
        Err(error) => {
            if error.state_transition_applied() {
                let shown = match &applied {
                    Some(job) => expected.is_shown_by(job),
                    None => false,
                };
                if shown {
                    return Ok(applied);
                }
            }
            Err(error.message())
        },
    }
}

/// How many jobs wait again after a requeue; one that was put in place, but not synced, counts as
/// one.
pub fn settle_requeue(
    outcome: Result<Vec<StoredPullRequestJob>, PullRequestJobStoreError>,
) -> (r: Result<usize, String>)
    ensures
        match outcome {
            Ok(jobs) => r == Ok::<usize, String>(jobs@.len() as usize),
            Err(error) => if error is PostRenameDirectorySync {
                r == Ok::<usize, String>(1)
            } else {
                r matches Err(e) && e@ == error.text()
            },
        },
{
    match outcome {
        Ok(jobs) => Ok(jobs.len()),
        Err(error) => if error.state_transition_applied() {
            Ok(1)
        } else {
            Err(error.message())
        },
    }
}

fn has_key(keys: &Vec<PullRequestKey>, repository: &str, number: u64) -> (r: bool)
    ensures
        r == key_views(keys@).contains(KeyView { repository: repository@, number }),
{
    let ghost views = key_views(keys@);
    let ghost key = KeyView { repository: repository@, number };
    let mut i: usize = 0;
    while i < keys.len()
        invariant
            i <= keys@.len(),
            views == key_views(keys@),
            key == (KeyView { repository: repository@, number }),
            forall|k: int| 0 <= k < i ==> views[k] != key,
        decreases keys@.len() - i,
    {
        assert(views[i as int] == keys@[i as int]@);
        if keys[i].number == number && same(keys[i].repository.as_str(), repository) {
            assert(views[i as int] == key);
            return true;
        }
        i = i + 1;
    }
    false
}

impl PullRequestDispatcher {
    pub open spec fn wf(&self) -> bool {
        self.jobs.wf()
    }

    pub open spec fn outstanding(&self) -> Seq<KeyView> {
        key_views(self.admission.outstanding@)
    }

    pub open spec fn abandoned(&self) -> Seq<Seq<char>> {
        texts(self.admission.abandoned_deliveries@)
    }

    /// A dispatcher with nothing under way.
    pub fn new(jobs: PullRequestJobStore) -> (r: Self)
        requires
            jobs.wf(),
        ensures
            r.wf(),
            r.jobs == jobs,
            r.outstanding() == Seq::<KeyView>::empty(),
            r.abandoned() == Seq::<Seq<char>>::empty(),
    {
        let outstanding: Vec<PullRequestKey> = Vec::new();
        let abandoned_deliveries: Vec<String> = Vec::new();
        assert(key_views(outstanding@) =~= Seq::<KeyView>::empty());
        assert(texts(abandoned_deliveries@) =~= Seq::<Seq<char>>::empty());
        PullRequestDispatcher {
            admission: PullRequestAdmission { outstanding, abandoned_deliveries },
            jobs,
        }
    }

    /// Decides on a delivery. It is acknowledged only once the step is carried out.
    pub fn accept_delivery(&self, job: PullRequestJob) -> (r: Result<StoreStep<DispatchOutcome>, String>)
        requires
            self.wf(),
            self.jobs.registry.next_sequence < u64::MAX,
        ensures
            match job@.pull_request {
                None => r matches Err(e) && e@ == "pull_request payload missing PR data"@,
                Some(p) => r matches Ok(step) && match step {
                    StoreStep::SyncParent => self.jobs.directory_sync_pending,
                    StoreStep::Done(outcome) => {
                        &&& !self.jobs.directory_sync_pending
                        &&& lookup(self.jobs.registry@.jobs, job.delivery@) is Some
                        &&& outcome is DuplicateDelivery
                    },
                    StoreStep::Write(candidate, outcome) => {
                        &&& !self.jobs.directory_sync_pending
                        &&& lookup(self.jobs.registry@.jobs, job.delivery@) is None
                        &&& candidate.wf()
                        &&& outcome matches DispatchOutcome::Accepted {
                            job: accepted,
                            cancellation_pending,
                            coalesced,
                        }
                        &&& coalesced == self.outstanding().contains(job.key@)
                        &&& exists|input: PullRequestJobInput|
                            {
                                &&& input.delivery_id@ == job.delivery@
                                &&& input.action@ == job.action@
                                &&& input.installation_id == job.installation_id
                                &&& input.repository@ == target_repository(
                                    p,
                                    job@.repository,
                                ).full_name
                                &&& input.pull_request == p.number
                                &&& input.head_sha@ == p.sha
                                &&& input.clone_url@ == p.repo.clone_url
                                &&& candidate@ == #[trigger] accepting(
                                    self.jobs.registry@,
                                    input,
                                )
                                &&& accepted@ == new_job(input, self.jobs.registry.next_sequence)
                                &&& job_views(cancellation_pending@) == displaced_jobs(
                                    self.jobs.registry@.jobs,
                                    input,
                                )
                            }
                    },
                },
            },
    {
        let coalesced = has_key(
            &self.admission.outstanding,
            job.key.repository.as_str(),
            job.key.number,
        );
        match job.into_store_input() {
            Err(e) => Err(e),
            Ok(input) => {
                match self.jobs.accept(input) {
                    StoreStep::SyncParent => Ok(StoreStep::SyncParent),
                    StoreStep::Done(_) => Ok(StoreStep::Done(DispatchOutcome::DuplicateDelivery)),
                    StoreStep::Write(candidate, admission) => {
                        match admission {
                            PullRequestJobAdmission::Accepted { job, cancellation_pending } => {
                                assert(candidate@ == accepting(self.jobs.registry@, input));
                                Ok(
                                    StoreStep::Write(
                                        candidate,
                                        DispatchOutcome::Accepted {
                                            job,
                                            cancellation_pending,
                                            coalesced,
                                        },
                                    ),
                                )
                            },
                            PullRequestJobAdmission::DuplicateDelivery => {
                                Ok(StoreStep::Done(DispatchOutcome::DuplicateDelivery))
                            },
                        }
                    },
                }
            },
        }
    }

    /// Takes the waiting jobs that may go to workers; `room` is how many the queue takes.
    pub fn schedule(&mut self, room: usize) -> (r: Vec<PullRequestJob>)
        requires
            old(self).wf(),
        ensures
            final(self).jobs == old(self).jobs,
            final(self).abandoned() == old(self).abandoned(),
            ({
                let sent = scheduled(
                    with_status(old(self).jobs.registry@.jobs, PullRequestJobStatus::Queued),
                    old(self).outstanding(),
                    room as nat,
                );
                &&& delivery_views(r@) == sent.map_values(|j: JobView| stored_delivery(j))
                &&& final(self).outstanding() == old(self).outstanding() + sent.map_values(
                    |j: JobView| job_key(j),
                )
            }),
    {
        let queued = self.jobs.queued_jobs();
        let ghost views = job_views(queued@);
        let ghost start = self.outstanding();
        let ghost target = scheduled(views, start, room as nat);
        let ghost mut sent: Seq<JobView> = Seq::empty();
        let mut out: Vec<PullRequestJob> = Vec::new();
        let mut left: usize = room;
        let mut i: usize = 0;
        proof {
            assert(views.skip(0) =~= views);
            assert(sent + target =~= target);
            assert(delivery_views(out@) =~= sent.map_values(|j: JobView| stored_delivery(j)));
            assert(start =~= start + sent.map_values(|j: JobView| job_key(j)));
        }
        while i < queued.len() && left > 0
            invariant
                i <= queued@.len(),
                views == job_views(queued@),
                self.jobs == old(self).jobs,
                self.admission.abandoned_deliveries == old(self).admission.abandoned_deliveries,
                sent + scheduled(views.skip(i as int), self.outstanding(), left as nat) == target,
                delivery_views(out@) == sent.map_values(|j: JobView| stored_delivery(j)),
                self.outstanding() == start + sent.map_values(|j: JobView| job_key(j)),
            decreases queued@.len() - i,
        {
            let ghost rest = views.skip(i as int);
            let ghost now = self.outstanding();
            proof {
                assert(rest.first() == queued@[i as int]@);
                assert(rest.drop_first() =~= views.skip(i + 1));
            }
            let stored = &queued[i];
            if !has_key(
                &self.admission.outstanding,
                stored.repository.as_str(),
                stored.pull_request,
            ) {
                let job = PullRequestJob::from_stored(stored);
                let key = PullRequestKey {
                    repository: stored.repository.clone(),
                    number: stored.pull_request,
                };
                let ghost before = self.admission.outstanding@;
                let ghost out_before = out@;
                self.admission.outstanding.push(key);
                out.push(job);
                left = left - 1;
                proof {
                    let j = stored@;
                    assert(self.outstanding() =~= now.push(job_key(j)));
                    let tail = scheduled(
                        views.skip(i + 1),
                        now.push(job_key(j)),
                        left as nat,
                    );
                    assert(sent + (seq![j] + tail) =~= sent.push(j) + tail);
                    assert(delivery_views(out@) =~= delivery_views(out_before).push(job@));
                    assert(sent.push(j).map_values(|j: JobView| stored_delivery(j))
                        =~= sent.map_values(|j: JobView| stored_delivery(j)).push(
                        stored_delivery(j),
                    ));
                    assert(sent.push(j).map_values(|j: JobView| job_key(j)) =~= sent.map_values(
                        |j: JobView| job_key(j),
                    ).push(job_key(j)));
                    assert(self.outstanding() =~= start + sent.push(j).map_values(
                        |j: JobView| job_key(j),
                    ));
                    sent = sent.push(j);
                }
            }
            i = i + 1;
        }
        proof {
            let rest = views.skip(i as int);
            assert(scheduled(rest, self.outstanding(), left as nat) =~= Seq::<JobView>::empty());
            assert(sent =~= target);
        }
        out
    }

    /// Whether the job of the delivery is to be cancelled.
    pub fn is_cancellation_pending(&self, delivery: &str) -> (r: bool)
        requires
            self.wf(),
        ensures
            r == (lookup(self.jobs.registry@.jobs, delivery@) matches Some(j) && j.status
                == PullRequestJobStatus::CancellationPending),
    {
        match self.jobs.job(delivery) {
            Some(job) => job.status == PullRequestJobStatus::CancellationPending,
            None => false,
        }
    }

    /// A worker is done with a delivery: its pull request is free again, and its job counts as
    /// abandoned where it is still marked as running. Scheduling comes next.
    pub fn complete(&mut self, key: &PullRequestKey, delivery: &str)
        requires
            old(self).wf(),
        ensures
            final(self).jobs == old(self).jobs,
            final(self).outstanding() == old(self).outstanding().filter(|k: KeyView| k != key@),
            ({
                let others = old(self).abandoned().filter(|d: Seq<char>| d != delivery@);
                final(self).abandoned() == if running(old(self).jobs.registry@.jobs)(delivery@) {
                    others.push(delivery@)
                } else {
                    others
                }
            }),
    {
        let is_running = match self.jobs.job(delivery) {
            Some(job) => job.status == PullRequestJobStatus::Running,
            None => false,
        };
        let mut abandoned = without_text(&self.admission.abandoned_deliveries, delivery);
        if is_running {
            let d = owned(delivery);
            proof {
                lemma_texts_push(abandoned@, d);
            }
            abandoned.push(d);
        }
        self.admission.abandoned_deliveries = abandoned;
        self.admission.outstanding = without_key(&self.admission.outstanding, key);
    }

    /// Begins to requeue what workers gave up: forgets the deliveries whose job is no longer
    /// marked as running, and asks for the others to wait again, if there are any.
    pub fn begin_requeue_abandoned(&mut self) -> (r: Option<StoreStep<Vec<StoredPullRequestJob>>>)
        requires
            old(self).wf(),
        ensures
            final(self).wf(),
            final(self).jobs == old(self).jobs,
            final(self).admission.outstanding == old(self).admission.outstanding,
            final(self).abandoned() == old(self).abandoned().filter(
                running(old(self).jobs.registry@.jobs),
            ),
            ({
                let jobs = old(self).jobs.registry@.jobs;
                let ids = final(self).abandoned();
                let end = abandoned_requeued(jobs, ids, ids.len() as int);
                match r {
                    None => ids.len() == 0,
                    Some(StoreStep::SyncParent) => ids.len() > 0
                        && old(self).jobs.directory_sync_pending,
                    Some(StoreStep::Done(_)) => false,
                    Some(StoreStep::Write(candidate, v)) => {
                        &&& ids.len() > 0
                        &&& !old(self).jobs.directory_sync_pending
                        &&& candidate.wf()
                        &&& candidate@ == (RegistryView {
                            jobs: end.0,
                            ..old(self).jobs.registry@
                        })
                        &&& job_views(v@) == end.1
                    },
                }
            }),
    {
        let still = self.still_running();
        self.admission.abandoned_deliveries = still;
        if self.admission.abandoned_deliveries.len() == 0 {
            return None;
        }
        Some(
            self.jobs.requeue_abandoned_running(self.admission.abandoned_deliveries.as_slice()),
        )
    }

    /// Ends what [`Self::begin_requeue_abandoned`] began: says how many jobs wait again, and
    /// forgets their deliveries. Scheduling comes next where there are any.
    pub fn finish_requeue_abandoned(
        &mut self,
        outcome: Result<Vec<StoredPullRequestJob>, PullRequestJobStoreError>,
    ) -> (r: Result<usize, String>)
        requires
            old(self).wf(),
        ensures
            final(self).wf(),
            final(self).jobs == old(self).jobs,
            final(self).admission.outstanding == old(self).admission.outstanding,
            ({
                let kept = old(self).abandoned().filter(running(old(self).jobs.registry@.jobs));
                match outcome {
                    Ok(requeued) => r == Ok::<usize, String>(requeued@.len() as usize)
                        && final(self).abandoned() == kept,
                    Err(error) => if error is PostRenameDirectorySync {
                        &&& final(self).abandoned() == kept
                        &&& r == Ok::<usize, String>(
                            (old(self).abandoned().len() - kept.len()) as usize,
                        )
                    } else {
                        &&& final(self).abandoned() == old(self).abandoned()
                        &&& r matches Err(e) && e@ == error.text()
                    },
                }
            }),
    {
        match outcome {
            Ok(requeued) => {
                let still = self.still_running();
                self.admission.abandoned_deliveries = still;
                Ok(requeued.len())
            },
            Err(error) => {
                if error.state_transition_applied() {
                    let before: usize = self.admission.abandoned_deliveries.len();
                    let still = self.still_running();
                    proof {
                        self.abandoned().lemma_filter_len(running(self.jobs.registry@.jobs));
                        assert(texts(still@).len() == still@.len());
                    }
                    let requeued: usize = before - still.len();
                    self.admission.abandoned_deliveries = still;
                    Ok(requeued)
                } else {
                    Err(error.message())
                }
            },
        }
    }

    /// The abandoned deliveries whose job is still marked as running.
    fn still_running(&self) -> (r: Vec<String>)
        requires
            self.wf(),
        ensures
            texts(r@) == self.abandoned().filter(running(self.jobs.registry@.jobs)),
    {
        let ghost all = self.abandoned();
        let ghost p = running(self.jobs.registry@.jobs);
        let mut r: Vec<String> = Vec::new();
        let mut i: usize = 0;
        proof {
            assert(all.take(0) =~= Seq::<Seq<char>>::empty());
            reveal(Seq::filter);
            assert(texts(r@) =~= all.take(0).filter(p));
        }
        while i < self.admission.abandoned_deliveries.len()
            invariant
                i <= self.admission.abandoned_deliveries@.len(),
                self.wf(),
                all == self.abandoned(),
                p == running(self.jobs.registry@.jobs),
                texts(r@) == all.take(i as int).filter(p),
            decreases self.admission.abandoned_deliveries@.len() - i,
        {
            let d = &self.admission.abandoned_deliveries[i];
            proof {
                assert(all[i as int] == d@);
                assert(all.take(i + 1) =~= all.take(i as int).push(all[i as int]));
                all.take(i as int).lemma_filter_push(all[i as int], p);
            }
            let keep = match self.jobs.job(d.as_str()) {
                Some(job) => job.status == PullRequestJobStatus::Running,
                None => false,
            };
            if keep {
                let copy = d.clone();
                proof {
                    lemma_texts_push(r@, copy);
                }
                r.push(copy);
            }
            i = i + 1;
        }
        assert(all.take(i as int) =~= all);
        r
    }
}

fn without_text(v: &Vec<String>, x: &str) -> (r: Vec<String>)
    ensures
        texts(r@) == texts(v@).filter(|d: Seq<char>| d != x@),
{
    let ghost all = texts(v@);
    let ghost p = |d: Seq<char>| d != x@;
    let mut r: Vec<String> = Vec::new();
    let mut i: usize = 0;
    proof {
        assert(all.take(0) =~= Seq::<Seq<char>>::empty());
        reveal(Seq::filter);
        assert(texts(r@) =~= all.take(0).filter(p));
    }
    while i < v.len()
        invariant
            i <= v@.len(),
            all == texts(v@),
            p == (|d: Seq<char>| d != x@),
            texts(r@) == all.take(i as int).filter(p),
        decreases v@.len() - i,
    {
        proof {
            assert(all[i as int] == v@[i as int]@);
            assert(all.take(i + 1) =~= all.take(i as int).push(all[i as int]));
            all.take(i as int).lemma_filter_push(all[i as int], p);
        }
        if !same(v[i].as_str(), x) {
            let copy = v[i].clone();
            proof {
                lemma_texts_push(r@, copy);
            }
            r.push(copy);
        }
        i = i + 1;
    }
    assert(all.take(i as int) =~= all);
    r
}

fn without_key(v: &Vec<PullRequestKey>, x: &PullRequestKey) -> (r: Vec<PullRequestKey>)
    ensures
        key_views(r@) == key_views(v@).filter(|k: KeyView| k != x@),
{
    let ghost all = key_views(v@);
    let ghost p = |k: KeyView| k != x@;
    let mut r: Vec<PullRequestKey> = Vec::new();
    let mut i: usize = 0;
    proof {
        assert(all.take(0) =~= Seq::<KeyView>::empty());
        reveal(Seq::filter);
        assert(key_views(r@) =~= all.take(0).filter(p));
    }
    while i < v.len()
        invariant
            i <= v@.len(),
            all == key_views(v@),
            p == (|k: KeyView| k != x@),
            key_views(r@) == all.take(i as int).filter(p),
        decreases v@.len() - i,
    {
        proof {
            assert(all[i as int] == v@[i as int]@);
            assert(all.take(i + 1) =~= all.take(i as int).push(all[i as int]));
            all.take(i as int).lemma_filter_push(all[i as int], p);
        }
        if !(v[i].number == x.number && same(v[i].repository.as_str(), x.repository.as_str())) {
            let copy = v[i].clone();
            proof {
                assert(key_views(r@.push(copy)) =~= key_views(r@).push(copy@));
            }
            r.push(copy);
        }
        i = i + 1;
    }
    assert(all.take(i as int) =~= all);
    r
}

// ---------------------------------------------------------------------------
// Laws
// ---------------------------------------------------------------------------

/// No pull request is handed to two workers at once: none that is under way is scheduled, and none
/// is scheduled twice.
pub proof fn scheduling_never_doubles_a_pull_request(
    queued: Seq<JobView>,
    outstanding: Seq<KeyView>,
    room: nat,
)
    ensures
        scheduled(queued, outstanding, room).len() <= room,
        forall|i: int|
            0 <= i < scheduled(queued, outstanding, room).len() ==> !outstanding.contains(
                job_key(#[trigger] scheduled(queued, outstanding, room)[i]),
            ),
        forall|i: int, k: int|
            0 <= i < k < scheduled(queued, outstanding, room).len() ==> job_key(
                #[trigger] scheduled(queued, outstanding, room)[i],
            ) != job_key(#[trigger] scheduled(queued, outstanding, room)[k]),
    decreases queued.len(),
{
    if queued.len() == 0 || room == 0 {
    } else if outstanding.contains(job_key(queued.first())) {
        scheduling_never_doubles_a_pull_request(queued.drop_first(), outstanding, room);
    } else {
        let key = job_key(queued.first());
        let more = outstanding.push(key);
        let tail = scheduled(queued.drop_first(), more, (room - 1) as nat);
        scheduling_never_doubles_a_pull_request(
            queued.drop_first(),
            more,
            (room - 1) as nat,
        );
        let all = scheduled(queued, outstanding, room);
        assert(all =~= seq![queued.first()] + tail);
        assert forall|i: int| 0 <= i < all.len() implies !outstanding.contains(
            job_key(#[trigger] all[i]),
        ) by {
            if i > 0 {
                assert(all[i] == tail[i - 1]);
                assert(!more.contains(job_key(tail[i - 1])));
                if outstanding.contains(job_key(all[i])) {
                    let p = choose|p: int|
                        0 <= p < outstanding.len() && outstanding[p] == job_key(all[i]);
                    assert(more[p] == job_key(all[i]));
                }
            }
        }
        assert forall|i: int, k: int| 0 <= i < k < all.len() implies job_key(
            #[trigger] all[i],
        ) != job_key(#[trigger] all[k]) by {
            assert(all[k] == tail[k - 1]);
            if i == 0 {
                assert(more[outstanding.len() as int] == key);
                assert(!more.contains(job_key(tail[k - 1])));
            } else {
                assert(all[i] == tail[i - 1]);
            }
        }
    }
}

} // verus!
