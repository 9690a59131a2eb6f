//! Durable pull-request scan jobs.
//!
//! Every transition is decided here from the registry and its arguments. A decision that changes
//! the registry is handed out as a candidate to be written; the registry itself changes only when
//! the outcome of that write is reported back.

use crate::finding::copy_opt;
use crate::paths::{absolute, components, file_name, is_absolute, last_name, path_parts, PathPart};
use crate::sort::{insert_stable, sort_stable, stable_sort};
use crate::text::{at_most, opt_text, owned, same, starts_with, text_le, texts};
use vstd::prelude::*;

verus! {

/// The layout version that new registries carry.
pub const STORE_SCHEMA_VERSION: u32 = 3;

/// How many finished jobs are kept to recognise repeated deliveries.
pub const RECENT_DELIVERY_CAPACITY: usize = 4096;

pub const RETRY_BACKOFF_BASE_MILLIS: u64 = 1_000;

pub const RETRY_BACKOFF_MAX_MILLIS: u64 = 60_000;

// ---------------------------------------------------------------------------
// Jobs
// ---------------------------------------------------------------------------

#[derive(Debug, Clone, Copy, PartialEq, Eq, Structural)]
pub enum PullRequestJobStatus {
    Queued,
    Running,
    /// A terminal check-run update failed; the job is rescheduled after a restart.
    RetryPending,
    CancellationPending,
    Succeeded,
    Findings,
    Failed,
    Superseded,
}

impl PullRequestJobStatus {
    pub open spec fn terminal(self) -> bool {
        ||| self == PullRequestJobStatus::Succeeded
        ||| self == PullRequestJobStatus::Findings
        ||| self == PullRequestJobStatus::Failed
        ||| self == PullRequestJobStatus::Superseded
    }

    /// The job waits for a worker, is with one, or will wait for one again.
    pub open spec fn active(self) -> bool {
        ||| self == PullRequestJobStatus::Queued
        ||| self == PullRequestJobStatus::Running
        ||| self == PullRequestJobStatus::RetryPending
    }

    /// Whether the job is finished.
    pub fn is_terminal(self) -> (r: bool)
        ensures
            r == self.terminal(),
    {
        match self {
            PullRequestJobStatus::Succeeded
            | PullRequestJobStatus::Findings
            | PullRequestJobStatus::Failed
            | PullRequestJobStatus::Superseded => true,
            _ => false,
        }
    }

    /// Whether a worker has or will have the job.
    pub fn is_active(self) -> (r: bool)
        ensures
            r == self.active(),
    {
        match self {
            PullRequestJobStatus::Queued
            | PullRequestJobStatus::Running
            | PullRequestJobStatus::RetryPending => true,
            _ => false,
        }
    }
}

#[derive(Debug, Clone, Copy, PartialEq, Eq, Structural)]
pub enum CheckRunCreationState {
    NotStarted,
    Creating,
    Attached,
}

impl Default for CheckRunCreationState {
    fn default() -> (r: Self)
        ensures
            r == CheckRunCreationState::NotStarted,
    {
        CheckRunCreationState::NotStarted
    }
}

/// What a delivery asks for.
#[derive(Debug)]
pub struct PullRequestJobInput {
    pub delivery_id: String,
    pub action: String,
    pub installation_id: u64,
    pub repository: String,
    pub pull_request: u64,
    pub head_sha: String,
    pub clone_url: String,
}

/// One job, with everything that is known of its progress.
#[derive(Debug, PartialEq, Eq)]
pub struct StoredPullRequestJob {
    pub delivery_id: String,
    pub action: String,
    pub installation_id: u64,
    pub repository: String,
    pub pull_request: u64,
    pub head_sha: String,
    pub clone_url: String,
    pub status: PullRequestJobStatus,
    pub attempts: u32,
    pub check_run_id: Option<u64>,
    pub check_run_creation: CheckRunCreationState,
    pub finding_count: Option<usize>,
    pub terminal_error: Option<String>,
    pub retry_not_before_unix_ms: Option<u64>,
    pub lifecycle_retry_attempts: u32,
    pub sequence: u64,
}

/// What a [`StoredPullRequestJob`] holds, with its strings as texts.
#[verifier::ext_equal]
pub struct JobView {
    pub delivery_id: Seq<char>,
    pub action: Seq<char>,
    pub installation_id: u64,
    pub repository: Seq<char>,
    pub pull_request: u64,
    pub head_sha: Seq<char>,
    pub clone_url: Seq<char>,
    pub status: PullRequestJobStatus,
    pub attempts: u32,
    pub check_run_id: Option<u64>,
    pub check_run_creation: CheckRunCreationState,
    pub finding_count: Option<usize>,
    pub terminal_error: Option<Seq<char>>,
    pub retry_not_before_unix_ms: Option<u64>,
    pub lifecycle_retry_attempts: u32,
    pub sequence: u64,
}

impl View for StoredPullRequestJob {
    type V = JobView;

    open spec fn view(&self) -> JobView {
        JobView {
            delivery_id: self.delivery_id@,
            action: self.action@,
            installation_id: self.installation_id,
            repository: self.repository@,
            pull_request: self.pull_request,
            head_sha: self.head_sha@,
            clone_url: self.clone_url@,
            status: self.status,
            attempts: self.attempts,
            check_run_id: self.check_run_id,
            check_run_creation: self.check_run_creation,
            finding_count: self.finding_count,
            terminal_error: opt_text(self.terminal_error),
            retry_not_before_unix_ms: self.retry_not_before_unix_ms,
            lifecycle_retry_attempts: self.lifecycle_retry_attempts,
            sequence: self.sequence,
        }
    }
}

impl Clone for StoredPullRequestJob {
    fn clone(&self) -> (r: Self)
        ensures
            r@ == self@,
    {
        StoredPullRequestJob {
            delivery_id: self.delivery_id.clone(),
            action: self.action.clone(),
            installation_id: self.installation_id,
            repository: self.repository.clone(),
            pull_request: self.pull_request,
            head_sha: self.head_sha.clone(),
            clone_url: self.clone_url.clone(),
            status: self.status,
            attempts: self.attempts,
            check_run_id: self.check_run_id,
            check_run_creation: self.check_run_creation,
            finding_count: self.finding_count,
            terminal_error: copy_opt(&self.terminal_error),
            retry_not_before_unix_ms: self.retry_not_before_unix_ms,
            lifecycle_retry_attempts: self.lifecycle_retry_attempts,
            sequence: self.sequence,
        }
    }
}

impl JobView {
    /// The retry time has come, or none is set.
    pub open spec fn retry_due(self, now_unix_ms: u64) -> bool {
        match self.retry_not_before_unix_ms {
            Some(not_before) => not_before <= now_unix_ms,
            None => true,
        }
    }

    /// The job works on the given pull request.
    pub open spec fn concerns(self, repository: Seq<char>, pull_request: u64) -> bool {
        self.repository == repository && self.pull_request == pull_request
    }
}

impl StoredPullRequestJob {
    /// Whether the retry time has come, or none is set.
    pub fn retry_is_due(&self, now_unix_ms: u64) -> (r: bool)
        ensures
            r == self@.retry_due(now_unix_ms),
    {
        match self.retry_not_before_unix_ms {
            Some(not_before) => not_before <= now_unix_ms,
            None => true,
        }
    }

    /// Whether the job works on the given pull request.
    pub fn is_for(&self, repository: &str, pull_request: u64) -> (r: bool)
        ensures
            r == self@.concerns(repository@, pull_request),
    {
        same(self.repository.as_str(), repository) && self.pull_request == pull_request
    }
}

/// The contents of a list of jobs.
pub open spec fn job_views(v: Seq<StoredPullRequestJob>) -> Seq<JobView> {
    v.map_values(|j: StoredPullRequestJob| j@)
}

/// The contents of an optional job.
pub open spec fn opt_job(o: Option<StoredPullRequestJob>) -> Option<JobView> {
    match o {
        Some(j) => Some(j@),
        None => None,
    }
}

pub proof fn lemma_job_views_push(v: Seq<StoredPullRequestJob>, j: StoredPullRequestJob)
    ensures
        job_views(v.push(j)) == job_views(v).push(j@),
{
    assert(job_views(v.push(j)) =~= job_views(v).push(j@));
}

fn copy_jobs(v: &Vec<StoredPullRequestJob>) -> (r: Vec<StoredPullRequestJob>)
    ensures
        job_views(r@) == job_views(v@),
{
    let mut r: Vec<StoredPullRequestJob> = Vec::new();
    let mut i: usize = 0;
    while i < v.len()
        invariant
            i <= v@.len(),
            job_views(r@) =~= job_views(v@.take(i as int)),
        decreases v@.len() - i,
    {
        let j = v[i].clone();
        proof {
            lemma_job_views_push(r@, j);
            assert(v@.take(i + 1) =~= v@.take(i as int).push(v@[i as int]));
            lemma_job_views_push(v@.take(i as int), v@[i as int]);
        }
        r.push(j);
        i = i + 1;
    }
    assert(v@.take(i as int) =~= v@);
    r
}

// ---------------------------------------------------------------------------
// The registry
// ---------------------------------------------------------------------------

/// All jobs that are remembered, in the order of their delivery ids.
#[derive(Debug)]
pub struct PullRequestJobRegistry {
    pub schema_version: u32,
    pub next_sequence: u64,
    pub jobs: Vec<StoredPullRequestJob>,
}

/// What a [`PullRequestJobRegistry`] holds.
#[verifier::ext_equal]
pub struct RegistryView {
    pub schema_version: u32,
    pub next_sequence: u64,
    pub jobs: Seq<JobView>,
}

impl View for PullRequestJobRegistry {
    type V = RegistryView;

    open spec fn view(&self) -> RegistryView {
        RegistryView {
            schema_version: self.schema_version,
            next_sequence: self.next_sequence,
            jobs: job_views(self.jobs@),
        }
    }
}

/// `a` comes before `b` in the order of texts.
pub open spec fn text_lt(a: Seq<char>, b: Seq<char>) -> bool {
    text_le(a, b) && a != b
}

/// No delivery id occurs twice, and the jobs stand in the order of their ids.
pub open spec fn ids_ascending(jobs: Seq<JobView>) -> bool {
    forall|i: int, j: int|
        0 <= i < j < jobs.len() ==> text_lt(
            #[trigger] jobs[i].delivery_id,
            #[trigger] jobs[j].delivery_id,
        )
}

/// The job of the given delivery.
pub open spec fn lookup(jobs: Seq<JobView>, id: Seq<char>) -> Option<JobView>
    decreases jobs.len(),
{
    if jobs.len() == 0 {
        None
    } else if jobs.first().delivery_id == id {
        Some(jobs.first())
    } else {
        lookup(jobs.drop_first(), id)
    }
}

/// `jobs` with the job of the given delivery, if there is one, changed by `f`.
pub open spec fn with_job(
    jobs: Seq<JobView>,
    id: Seq<char>,
    f: spec_fn(JobView) -> JobView,
) -> Seq<JobView> {
    jobs.map_values(
        |j: JobView|
            if j.delivery_id == id {
                f(j)
            } else {
                j
            },
    )
}

pub proof fn lemma_lookup(jobs: Seq<JobView>, id: Seq<char>)
    ensures
        match lookup(jobs, id) {
            Some(j) => j.delivery_id == id && jobs.contains(j),
            None => forall|i: int| 0 <= i < jobs.len() ==> #[trigger] jobs[i].delivery_id != id,
        },
    decreases jobs.len(),
{
    if jobs.len() > 0 && jobs.first().delivery_id != id {
        lemma_lookup(jobs.drop_first(), id);
        match lookup(jobs.drop_first(), id) {
            Some(j) => {
                let k = choose|k: int|
                    0 <= k < jobs.drop_first().len() && jobs.drop_first()[k] == j;
                assert(jobs[k + 1] == j);
            },
            None => {
                assert forall|i: int| 0 <= i < jobs.len() implies #[trigger] jobs[i].delivery_id
                    != id by {
                    if i > 0 {
                        assert(jobs.drop_first()[i - 1] == jobs[i]);
                    }
                }
            },
        }
    } else if jobs.len() > 0 {
        assert(jobs[0] == jobs.first());
    }
}

pub proof fn lemma_lookup_at(jobs: Seq<JobView>, i: int)
    requires
        0 <= i < jobs.len(),
        ids_ascending(jobs),
    ensures
        lookup(jobs, jobs[i].delivery_id) == Some(jobs[i]),
{
    let id = jobs[i].delivery_id;
    lemma_lookup(jobs, id);
    match lookup(jobs, id) {
        Some(j) => {
            let k = choose|k: int| 0 <= k < jobs.len() && jobs[k] == j;
            if k < i {
                assert(text_lt(jobs[k].delivery_id, jobs[i].delivery_id));
            } else if i < k {
                assert(text_lt(jobs[i].delivery_id, jobs[k].delivery_id));
            }
        },
        None => {},
    }
}

pub proof fn lemma_with_job_at(jobs: Seq<JobView>, i: int, f: spec_fn(JobView) -> JobView)
    requires
        0 <= i < jobs.len(),
        ids_ascending(jobs),
    ensures
        with_job(jobs, jobs[i].delivery_id, f) == jobs.update(i, f(jobs[i])),
{
    let a = with_job(jobs, jobs[i].delivery_id, f);
    let b = jobs.update(i, f(jobs[i]));
    assert forall|k: int| 0 <= k < jobs.len() implies a[k] == b[k] by {
        if k < i {
            assert(text_lt(jobs[k].delivery_id, jobs[i].delivery_id));
        } else if i < k {
            assert(text_lt(jobs[i].delivery_id, jobs[k].delivery_id));
        }
    }
    assert(a =~= b);
}

impl Default for PullRequestJobRegistry {
    fn default() -> (r: Self)
        ensures
            r.wf(),
            r@ == (RegistryView {
                schema_version: STORE_SCHEMA_VERSION,
                next_sequence: 1,
                jobs: Seq::empty(),
            }),
    {
        let jobs: Vec<StoredPullRequestJob> = Vec::new();
        assert(job_views(jobs@) =~= Seq::<JobView>::empty());
        PullRequestJobRegistry { schema_version: STORE_SCHEMA_VERSION, next_sequence: 1, jobs }
    }
}

impl Clone for PullRequestJobRegistry {
    fn clone(&self) -> (r: Self)
        ensures
            r@ == self@,
    {
        PullRequestJobRegistry {
            schema_version: self.schema_version,
            next_sequence: self.next_sequence,
            jobs: copy_jobs(&self.jobs),
        }
    }
}

impl PullRequestJobRegistry {
    pub open spec fn wf(&self) -> bool {
        ids_ascending(self@.jobs)
    }

    /// A registry of the given jobs, or nothing where their delivery ids do not ascend.
    pub fn from_jobs(
        schema_version: u32,
        next_sequence: u64,
        jobs: Vec<StoredPullRequestJob>,
    ) -> (r: Option<Self>)
        ensures
            match r {
                Some(registry) => registry.wf() && registry.jobs == jobs
                    && registry.schema_version == schema_version && registry.next_sequence
                    == next_sequence,
                None => !ids_ascending(job_views(jobs@)),
            },
    {
        let ghost views = job_views(jobs@);
        let mut i: usize = 1;
        while i < jobs.len()
            invariant
                1 <= i,
                i <= jobs@.len() || jobs@.len() == 0,
                views == job_views(jobs@),
                ids_ascending(views.take(if i <= views.len() { i as int } else { 0 })),
            decreases jobs@.len() - i,
        {
            let a = jobs[i - 1].delivery_id.as_str();
            let b = jobs[i].delivery_id.as_str();
            proof {
                assert(views[i - 1].delivery_id == a@ && views[i as int].delivery_id == b@);
            }
            if !at_most(a, b) || same(a, b) {
                return None;
            }
            proof {
                let s = views.take(i + 1);
                let t = views.take(i as int);
                assert forall|k: int, j: int| 0 <= k < j < s.len() implies text_lt(
                    #[trigger] s[k].delivery_id,
                    #[trigger] s[j].delivery_id,
                ) by {
                    if j < i {
                        assert(text_lt(t[k].delivery_id, t[j].delivery_id));
                    } else if k < i - 1 {
                        assert(text_lt(t[k].delivery_id, t[i - 1].delivery_id));
                        crate::text::lemma_text_le_transitive(
                            s[k].delivery_id,
                            s[i - 1].delivery_id,
                            s[j].delivery_id,
                        );
                        crate::text::lemma_text_le_total(
                            s[k].delivery_id,
                            s[i - 1].delivery_id,
                        );
                    }
                }
            }
            i = i + 1;
        }
        proof {
            if jobs@.len() > 0 {
                assert(views.take(i as int) =~= views);
            } else {
                assert(views =~= Seq::<JobView>::empty());
            }
        }
        Some(PullRequestJobRegistry { schema_version, next_sequence, jobs })
    }

    /// Where the job of the given delivery stands.
    fn position(&self, id: &str) -> (r: Option<usize>)
        requires
            self.wf(),
        ensures
            match r {
                Some(i) => i < self.jobs@.len() && self.jobs@[i as int]@.delivery_id == id@
                    && lookup(self@.jobs, id@) == Some(self.jobs@[i as int]@),
                None => lookup(self@.jobs, id@) is None,
            },
    {
        let mut i: usize = 0;
        while i < self.jobs.len()
            invariant
                i <= self.jobs@.len(),
                self.wf(),
                forall|k: int| 0 <= k < i ==> (#[trigger] self@.jobs[k]).delivery_id != id@,
            decreases self.jobs@.len() - i,
        {
            if same(self.jobs[i].delivery_id.as_str(), id) {
                proof {
                    lemma_lookup_at(self@.jobs, i as int);
                }
                return Some(i);
            }
            i = i + 1;
        }
        proof {
            lemma_lookup(self@.jobs, id@);
        }
        None
    }

    /// A copy of the registry with the job at `i` replaced.
    fn replaced(&self, i: usize, job: StoredPullRequestJob) -> (r: PullRequestJobRegistry)
        requires
            self.wf(),
            i < self.jobs@.len(),
            job.delivery_id@ == self.jobs@[i as int].delivery_id@,
        ensures
            r.wf(),
            r@ == (RegistryView { jobs: self@.jobs.update(i as int, job@), ..self@ }),
    {
        let mut next = self.clone();
        let ghost before = next.jobs@;
        assert(job_views(before).len() == self@.jobs.len());
        next.jobs.set(i, job);
        proof {
            assert(job_views(next.jobs@) =~= job_views(before).update(i as int, job@));
            let s = next@.jobs;
            assert forall|k: int, j: int| 0 <= k < j < s.len() implies text_lt(
                #[trigger] s[k].delivery_id,
                #[trigger] s[j].delivery_id,
            ) by {
                assert(text_lt(self@.jobs[k].delivery_id, self@.jobs[j].delivery_id));
            }
        }
        next
    }
}

// ---------------------------------------------------------------------------
// Keeping the newest finished jobs
// ---------------------------------------------------------------------------

/// `a` was accepted before `b`.
pub open spec fn older(a: JobView, b: JobView) -> bool {
    a.sequence < b.sequence || (a.sequence == b.sequence && text_lt(a.delivery_id, b.delivery_id))
}

/// How many jobs are finished.
pub open spec fn terminal_count(jobs: Seq<JobView>) -> nat {
    jobs.filter(|j: JobView| j.status.terminal()).len()
}

/// Where the oldest finished job among the first `n` stands.
pub open spec fn oldest_terminal(jobs: Seq<JobView>, n: int) -> Option<int>
    decreases n,
{
    if n <= 0 {
        None
    } else {
        let earlier = oldest_terminal(jobs, n - 1);
        if jobs[n - 1].status.terminal() && (earlier is None || older(
            jobs[n - 1],
            jobs[earlier.unwrap()],
        )) {
            Some(n - 1)
        } else {
            earlier
        }
    }
}

/// `jobs` without the oldest finished jobs that exceed the capacity.
pub open spec fn pruned(jobs: Seq<JobView>) -> Seq<JobView>
    decreases jobs.len(),
{
    match oldest_terminal(jobs, jobs.len() as int) {
        Some(i) => if terminal_count(jobs) > RECENT_DELIVERY_CAPACITY && 0 <= i < jobs.len() {
            pruned(jobs.remove(i))
        } else {
            jobs
        },
        None => jobs,
    }
}

pub proof fn lemma_oldest_terminal(jobs: Seq<JobView>, n: int)
    requires
        0 <= n <= jobs.len(),
    ensures
        match oldest_terminal(jobs, n) {
            Some(i) => 0 <= i < n && jobs[i].status.terminal(),
            None => forall|k: int| 0 <= k < n ==> !(#[trigger] jobs[k]).status.terminal(),
        },
    decreases n,
{
    if n > 0 {
        lemma_oldest_terminal(jobs, n - 1);
    }
}

pub proof fn lemma_no_terminal(jobs: Seq<JobView>)
    requires
        forall|k: int| 0 <= k < jobs.len() ==> !(#[trigger] jobs[k]).status.terminal(),
    ensures
        terminal_count(jobs) == 0,
{
    let p = |j: JobView| j.status.terminal();
    let f = jobs.filter(p);
    if f.len() > 0 {
        jobs.lemma_filter_pred(p, 0);
        jobs.lemma_filter_contains_rev(p, f[0]);
    }
}

pub proof fn lemma_remove_ascending(jobs: Seq<JobView>, i: int)
    requires
        0 <= i < jobs.len(),
        ids_ascending(jobs),
    ensures
        ids_ascending(jobs.remove(i)),
{
    let s = jobs.remove(i);
    assert forall|k: int, j: int| 0 <= k < j < s.len() implies text_lt(
        #[trigger] s[k].delivery_id,
        #[trigger] s[j].delivery_id,
    ) by {
        let a = if k < i { k } else { k + 1 };
        let b = if j < i { j } else { j + 1 };
        assert(text_lt(jobs[a].delivery_id, jobs[b].delivery_id));
    }
}

fn is_older(a: &StoredPullRequestJob, b: &StoredPullRequestJob) -> (r: bool)
    ensures
        r == older(a@, b@),
{
    a.sequence < b.sequence || (a.sequence == b.sequence && at_most(
        a.delivery_id.as_str(),
        b.delivery_id.as_str(),
    ) && !same(a.delivery_id.as_str(), b.delivery_id.as_str()))
}

fn count_terminal(jobs: &Vec<StoredPullRequestJob>) -> (n: usize)
    ensures
        n == terminal_count(job_views(jobs@)),
{
    let ghost p = |j: JobView| j.status.terminal();
    let ghost views = job_views(jobs@);
    let mut n: usize = 0;
    let mut i: usize = 0;
    while i < jobs.len()
        invariant
            i <= jobs@.len(),
            n <= i,
            views == job_views(jobs@),
            p == (|j: JobView| j.status.terminal()),
            n == views.take(i as int).filter(p).len(),
        decreases jobs@.len() - i,
    {
        proof {
            assert(views.take(i + 1) =~= views.take(i as int).push(views[i as int]));
            views.take(i as int).lemma_filter_push(views[i as int], p);
        }
        if jobs[i].status.is_terminal() {
            n = n + 1;
        }
        i = i + 1;
    }
    assert(views.take(i as int) =~= views);
    n
}

fn find_oldest_terminal(jobs: &Vec<StoredPullRequestJob>) -> (r: Option<usize>)
    ensures
        match r {
            Some(i) => oldest_terminal(job_views(jobs@), jobs@.len() as int) == Some(i as int) && i
                < jobs@.len(),
            None => oldest_terminal(job_views(jobs@), jobs@.len() as int) is None,
        },
{
    let ghost views = job_views(jobs@);
    let mut best: Option<usize> = None;
    let mut i: usize = 0;
    while i < jobs.len()
        invariant
            i <= jobs@.len(),
            views == job_views(jobs@),
            match best {
                Some(b) => oldest_terminal(views, i as int) == Some(b as int) && b < i,
                None => oldest_terminal(views, i as int) is None,
            },
        decreases jobs@.len() - i,
    {
        let better = jobs[i].status.is_terminal() && match best {
            Some(b) => is_older(&jobs[i], &jobs[b]),
            None => true,
        };
        if better {
            best = Some(i);
        }
        i = i + 1;
    }
    best
}

/// Drops the oldest finished jobs that exceed the capacity.
fn prune_terminal_jobs(registry: &mut PullRequestJobRegistry)
    requires
        old(registry).wf(),
    ensures
        final(registry).wf(),
        final(registry)@ == (RegistryView {
            jobs: pruned(old(registry)@.jobs),
            ..old(registry)@
        }),
{
    let ghost all = registry@.jobs;
    let mut n: usize = count_terminal(&registry.jobs);
    while n > RECENT_DELIVERY_CAPACITY
        invariant
            registry.wf(),
            registry.schema_version == old(registry).schema_version,
            registry.next_sequence == old(registry).next_sequence,
            pruned(registry@.jobs) == pruned(all),
            n == terminal_count(registry@.jobs),
        decreases registry@.jobs.len(),
    {
        let ghost views = registry@.jobs;
        match find_oldest_terminal(&registry.jobs) {
            Some(i) => {
                let ghost before = registry.jobs@;
                let _ = registry.jobs.remove(i);
                proof {
                    lemma_remove_ascending(views, i as int);
                    assert(job_views(registry.jobs@) =~= job_views(before).remove(i as int));
                }
                n = count_terminal(&registry.jobs);
            },
            None => {
                proof {
                    lemma_oldest_terminal(views, views.len() as int);
                    lemma_no_terminal(views);
                }
                return;
            },
        }
    }
}

// ---------------------------------------------------------------------------
// Errors and steps
// ---------------------------------------------------------------------------

/// Why a store operation failed.
#[derive(Debug, PartialEq, Eq)]
pub enum PullRequestJobStoreError {
    InvalidPath(String),
    Io(String),
    Json(String),
    /// The new registry was put in place, but syncing its parent directory failed afterwards. The
    /// transition is visible, which a failed write is not.
    PostRenameDirectorySync(Box<PullRequestJobStoreError>),
}

impl PullRequestJobStoreError {
    pub open spec fn text(&self) -> Seq<char>
        decreases self,
    {
        match self {
            PullRequestJobStoreError::InvalidPath(e) => "invalid pull-request job store path: "@
                + e@,
            PullRequestJobStoreError::Io(e) => "pull-request job store I/O failed: "@ + e@,
            PullRequestJobStoreError::Json(e) => "pull-request job store JSON failed: "@ + e@,
            PullRequestJobStoreError::PostRenameDirectorySync(e) =>
                "pull-request job store state was applied but parent directory sync failed: "@
                + e.text(),
        }
    }

    /// The error in words.
    pub fn message(&self) -> (r: String)
        ensures
            r@ == self.text(),
        decreases self,
    {
        match self {
            PullRequestJobStoreError::InvalidPath(e) => {
                let mut s = owned("invalid pull-request job store path: ");
                s.append(e.as_str());
                s
            },
            PullRequestJobStoreError::Io(e) => {
                let mut s = owned("pull-request job store I/O failed: ");
                s.append(e.as_str());
                s
            },
            PullRequestJobStoreError::Json(e) => {
                let mut s = owned("pull-request job store JSON failed: ");
                s.append(e.as_str());
                s
            },
            PullRequestJobStoreError::PostRenameDirectorySync(e) => {
                let inner = e.message();
                let mut s = owned(
                    "pull-request job store state was applied but parent directory sync failed: ",
                );
                s.append(inner.as_str());
                s
            },
        }
    }

    /// Whether the failed operation's transition is visible all the same.
    pub fn state_transition_applied(&self) -> (r: bool)
        ensures
            r == (self is PostRenameDirectorySync),
    {
        match self {
            PullRequestJobStoreError::PostRenameDirectorySync(_) => true,
            _ => false,
        }
    }
}

/// What a transition asks of the caller.
#[derive(Debug)]
pub enum StoreStep<T> {
    /// The parent directory must be synced before anything is decided.
    SyncParent,
    /// Nothing needs to be written.
    Done(T),
    /// The candidate must be written; its outcome goes to [`PullRequestJobStore::commit`].
    Write(PullRequestJobRegistry, T),
}

/// How writing a candidate ended.
#[derive(Debug)]
pub enum PersistOutcome {
    Saved,
    /// The candidate did not reach its place, unless the error itself says that it did.
    NotWritten(PullRequestJobStoreError),
    /// The candidate is in place, but the parent directory could not be synced.
    Unsynced(PullRequestJobStoreError),
}

#[derive(Debug, PartialEq, Eq)]
pub enum PullRequestJobAdmission {
    Accepted { job: Box<StoredPullRequestJob>, cancellation_pending: Vec<StoredPullRequestJob> },
    DuplicateDelivery,
}

#[derive(Debug, PartialEq, Eq)]
pub enum CheckRunAttachment {
    Attached(StoredPullRequestJob),
    CancellationPending(StoredPullRequestJob),
    IgnoredTerminal,
    Missing,
}

#[derive(Debug, PartialEq, Eq)]
pub struct PullRequestJobRecovery {
    pub queued: Vec<StoredPullRequestJob>,
    pub cancellation_pending: Vec<StoredPullRequestJob>,
}

/// The jobs, where they are stored, and whether their last write is still to be synced.
#[derive(Debug)]
pub struct PullRequestJobStore {
    pub path: String,
    pub registry: PullRequestJobRegistry,
    /// The registry is in place on disk, but syncing its parent directory failed. Nothing is
    /// written until that sync succeeds.
    pub directory_sync_pending: bool,
}

// ---------------------------------------------------------------------------
// Transitions of one job
// ---------------------------------------------------------------------------

/// The delay before a retry: it doubles with each attempt, from one second to one minute.
pub open spec fn doubled(base: nat, times: nat) -> nat
    decreases times,
{
    if times == 0 {
        base
    } else {
        2 * doubled(base, (times - 1) as nat)
    }
}

/// How long to wait after the given number of attempts.
pub open spec fn backoff_millis(attempts: u32) -> nat {
    let exponent: nat = if attempts == 0 {
        0
    } else if attempts > 7 {
        6
    } else {
        (attempts - 1) as nat
    };
    let delay = doubled(RETRY_BACKOFF_BASE_MILLIS as nat, exponent);
    if delay > RETRY_BACKOFF_MAX_MILLIS {
        RETRY_BACKOFF_MAX_MILLIS as nat
    } else {
        delay
    }
}

/// The time before which a job is not tried again.
pub open spec fn retry_time(now_unix_ms: u64, attempts: u32) -> u64 {
    if now_unix_ms + backoff_millis(attempts) > u64::MAX {
        u64::MAX
    } else {
        (now_unix_ms + backoff_millis(attempts)) as u64
    }
}

/// The time before which a job is not tried again.
pub fn retry_not_before_unix_ms(now_unix_ms: u64, retry_attempts: u32) -> (r: u64)
    ensures
        r == retry_time(now_unix_ms, retry_attempts),
{
    let exponent: u32 = if retry_attempts == 0 {
        0
    } else if retry_attempts > 7 {
        6
    } else {
        retry_attempts - 1
    };
    let mut delay: u64 = RETRY_BACKOFF_BASE_MILLIS;
    let mut k: u32 = 0;
    while k < exponent
        invariant
            k <= exponent <= 6,
            delay == doubled(RETRY_BACKOFF_BASE_MILLIS as nat, k as nat),
            k == 0 ==> delay == 1000,
            k == 1 ==> delay == 2000,
            k == 2 ==> delay == 4000,
            k == 3 ==> delay == 8000,
            k == 4 ==> delay == 16000,
            k == 5 ==> delay == 32000,
            k == 6 ==> delay == 64000,
        decreases exponent - k,
    {
        delay = delay * 2;
        k = k + 1;
    }
    if delay > RETRY_BACKOFF_MAX_MILLIS {
        delay = RETRY_BACKOFF_MAX_MILLIS;
    }
    if now_unix_ms > u64::MAX - delay {
        u64::MAX
    } else {
        now_unix_ms + delay
    }
}

/// A further attempt; the count stops at its maximum.
pub open spec fn one_more(attempts: u32) -> u32 {
    if attempts == u32::MAX {
        attempts
    } else {
        (attempts + 1) as u32
    }
}

fn next_attempt(attempts: u32) -> (r: u32)
    ensures
        r == one_more(attempts),
{
    if attempts == u32::MAX {
        attempts
    } else {
        attempts + 1
    }
}

/// A new job for an accepted delivery.
pub open spec fn new_job(input: PullRequestJobInput, sequence: u64) -> JobView {
    JobView {
        delivery_id: input.delivery_id@,
        action: input.action@,
        installation_id: input.installation_id,
        repository: input.repository@,
        pull_request: input.pull_request,
        head_sha: input.head_sha@,
        clone_url: input.clone_url@,
        status: PullRequestJobStatus::Queued,
        attempts: 0,
        check_run_id: None,
        check_run_creation: CheckRunCreationState::NotStarted,
        finding_count: None,
        terminal_error: None,
        retry_not_before_unix_ms: None,
        lifecycle_retry_attempts: 0,
        sequence,
    }
}

/// The job waits for a worker again.
pub open spec fn requeued(j: JobView) -> JobView {
    JobView { status: PullRequestJobStatus::Queued, retry_not_before_unix_ms: None, ..j }
}

/// A worker has taken the job.
pub open spec fn started(j: JobView) -> JobView {
    JobView {
        status: PullRequestJobStatus::Running,
        terminal_error: None,
        retry_not_before_unix_ms: None,
        attempts: (j.attempts + 1) as u32,
        ..j
    }
}

/// The job's check run is about to be created, is created, or was surely not created.
pub open spec fn with_creation(j: JobView, state: CheckRunCreationState) -> JobView {
    JobView { check_run_creation: state, ..j }
}

/// The job's check run is known.
pub open spec fn attached(j: JobView, check_run_id: u64) -> JobView {
    JobView {
        check_run_id: Some(check_run_id),
        check_run_creation: CheckRunCreationState::Attached,
        ..j
    }
}

/// The job is finished.
pub open spec fn finished(
    j: JobView,
    status: PullRequestJobStatus,
    finding_count: Option<usize>,
    terminal_error: Option<Seq<char>>,
) -> JobView {
    JobView { status, finding_count, terminal_error, ..j }
}

/// The job's last external update failed and is tried again later.
pub open spec fn deferred(
    j: JobView,
    status: PullRequestJobStatus,
    error: Seq<char>,
    now_unix_ms: u64,
) -> JobView {
    let attempts = one_more(j.lifecycle_retry_attempts);
    JobView {
        status,
        terminal_error: Some(error),
        lifecycle_retry_attempts: attempts,
        retry_not_before_unix_ms: Some(retry_time(now_unix_ms, attempts)),
        ..j
    }
}

/// The job is to be cancelled for the given reason.
pub open spec fn cancelling(j: JobView, reason: Seq<char>) -> JobView {
    JobView {
        status: PullRequestJobStatus::CancellationPending,
        terminal_error: Some(reason),
        retry_not_before_unix_ms: None,
        lifecycle_retry_attempts: 0,
        ..j
    }
}

/// The job gives way to another one.
pub open spec fn displaced(j: JobView, reason: Seq<char>) -> JobView {
    JobView {
        status: PullRequestJobStatus::CancellationPending,
        terminal_error: Some(reason),
        ..j
    }
}

/// The reason given to a job that a newer delivery displaces.
pub open spec fn superseded_by(id: Seq<char>) -> Seq<char> {
    "superseded by newer delivery "@ + id
}

// ---------------------------------------------------------------------------
// Transitions of the registry
// ---------------------------------------------------------------------------

/// The order of delivery ids.
pub open spec fn by_id() -> spec_fn(JobView, JobView) -> bool {
    |a: JobView, b: JobView| text_le(a.delivery_id, b.delivery_id)
}

/// The order of acceptance.
pub open spec fn by_sequence() -> spec_fn(JobView, JobView) -> bool {
    |a: JobView, b: JobView| a.sequence <= b.sequence
}

/// The jobs of one status, in the order of acceptance.
pub open spec fn with_status(jobs: Seq<JobView>, status: PullRequestJobStatus) -> Seq<JobView> {
    stable_sort(jobs.filter(|j: JobView| j.status == status), by_sequence())
}

/// The jobs that a new delivery for the same pull request displaces.
pub open spec fn displaces(input: PullRequestJobInput) -> spec_fn(JobView) -> bool {
    |j: JobView| j.concerns(input.repository@, input.pull_request) && j.status.active()
}

/// What becomes of a displaced job.
pub open spec fn displacement(input: PullRequestJobInput) -> spec_fn(JobView) -> JobView {
    |j: JobView| displaced(j, superseded_by(input.delivery_id@))
}

/// `jobs` once the new delivery has displaced the earlier ones for its pull request.
pub open spec fn superseding(jobs: Seq<JobView>, input: PullRequestJobInput) -> Seq<JobView> {
    jobs.map_values(
        |j: JobView|
            if displaces(input)(j) {
                displacement(input)(j)
            } else {
                j
            },
    )
}

/// The registry once the delivery is accepted.
pub open spec fn accepting(registry: RegistryView, input: PullRequestJobInput) -> RegistryView {
    RegistryView {
        next_sequence: (registry.next_sequence + 1) as u64,
        jobs: pruned(
            insert_stable(
                superseding(registry.jobs, input),
                new_job(input, registry.next_sequence),
                by_id(),
            ),
        ),
        ..registry
    }
}

/// What an accepted delivery displaces.
pub open spec fn displaced_jobs(jobs: Seq<JobView>, input: PullRequestJobInput) -> Seq<JobView> {
    jobs.filter(displaces(input)).map_values(displacement(input))
}

/// The job was with a worker, or was to be retried, when the process ended.
pub open spec fn interrupted(j: JobView) -> bool {
    j.status == PullRequestJobStatus::Running || j.status == PullRequestJobStatus::RetryPending
}

/// `jobs` with the interrupted ones waiting again.
pub open spec fn interrupted_requeued(jobs: Seq<JobView>) -> Seq<JobView> {
    jobs.map_values(
        |j: JobView|
            if interrupted(j) {
                requeued(j)
            } else {
                j
            },
    )
}

/// The waiting jobs at `i` and `k` work on the same pull request.
pub open spec fn rivals(jobs: Seq<JobView>, i: int, k: int) -> bool {
    jobs[k].status == PullRequestJobStatus::Queued && jobs[k].concerns(
        jobs[i].repository,
        jobs[i].pull_request,
    )
}

/// No waiting job for the same pull request was accepted after the one at `i`.
pub open spec fn newest(jobs: Seq<JobView>, i: int) -> bool {
    forall|k: int|
        0 <= k < jobs.len() && k != i && #[trigger] rivals(jobs, i, k) ==> jobs[k].sequence
            < jobs[i].sequence || (jobs[k].sequence == jobs[i].sequence && i < k)
}

/// `jobs` with every waiting job displaced but the newest for each pull request.
pub open spec fn newest_kept(jobs: Seq<JobView>) -> Seq<JobView> {
    jobs.map(
        |i: int, j: JobView|
            if j.status == PullRequestJobStatus::Queued && !newest(jobs, i) {
                displaced(j, "superseded during restart recovery"@)
            } else {
                j
            },
    )
}

/// `jobs` as a restart takes them up again.
pub open spec fn recovering(jobs: Seq<JobView>) -> Seq<JobView> {
    newest_kept(interrupted_requeued(jobs))
}

/// The job is to be retried and its time has come.
pub open spec fn retry_ready(now_unix_ms: u64) -> spec_fn(JobView) -> bool {
    |j: JobView| j.status == PullRequestJobStatus::RetryPending && j.retry_due(now_unix_ms)
}

/// `jobs` with those whose retry time has come waiting again.
pub open spec fn retries_requeued(jobs: Seq<JobView>, now_unix_ms: u64) -> Seq<JobView> {
    jobs.map_values(
        |j: JobView|
            if retry_ready(now_unix_ms)(j) {
                requeued(j)
            } else {
                j
            },
    )
}

/// The jobs, and those requeued, once the first `n` abandoned deliveries wait again.
pub open spec fn abandoned_requeued(
    jobs: Seq<JobView>,
    ids: Seq<Seq<char>>,
    n: int,
) -> (Seq<JobView>, Seq<JobView>)
    decreases n,
{
    if n <= 0 {
        (jobs, Seq::empty())
    } else {
        let (js, out) = abandoned_requeued(jobs, ids, n - 1);
        match lookup(js, ids[n - 1]) {
            Some(j) => if j.status == PullRequestJobStatus::Running {
                (with_job(js, ids[n - 1], |x: JobView| requeued(x)), out.push(requeued(j)))
            } else {
                (js, out)
            },
            None => (js, out),
        }
    }
}

pub proof fn lemma_same_ids_ascending(a: Seq<JobView>, b: Seq<JobView>)
    requires
        ids_ascending(a),
        a.len() == b.len(),
        forall|i: int| 0 <= i < a.len() ==> (#[trigger] a[i]).delivery_id == b[i].delivery_id,
    ensures
        ids_ascending(b),
{
    assert forall|k: int, j: int| 0 <= k < j < b.len() implies text_lt(
        #[trigger] b[k].delivery_id,
        #[trigger] b[j].delivery_id,
    ) by {
        assert(text_lt(a[k].delivery_id, a[j].delivery_id));
    }
}

pub proof fn lemma_insert_ascending(jobs: Seq<JobView>, x: JobView, at: int)
    requires
        ids_ascending(jobs),
        0 <= at <= jobs.len(),
        at == 0 || text_le(jobs[at - 1].delivery_id, x.delivery_id),
        at == jobs.len() || !text_le(jobs[at].delivery_id, x.delivery_id),
        forall|i: int| 0 <= i < jobs.len() ==> (#[trigger] jobs[i]).delivery_id != x.delivery_id,
    ensures
        ids_ascending(jobs.insert(at, x)),
        insert_stable(jobs, x, by_id()) == jobs.insert(at, x),
{
    let s = jobs.insert(at, x);
    assert forall|j: int| at <= j < jobs.len() implies !#[trigger] by_id()(jobs[j], x)
        && text_lt(x.delivery_id, jobs[j].delivery_id) by {
        crate::text::lemma_text_le_total(x.delivery_id, jobs[j].delivery_id);
        if by_id()(jobs[j], x) && j > at {
            assert(text_lt(jobs[at].delivery_id, jobs[j].delivery_id));
            crate::text::lemma_text_le_transitive(
                jobs[at].delivery_id,
                jobs[j].delivery_id,
                x.delivery_id,
            );
        }
    }
    assert forall|j: int| 0 <= j < at implies text_lt(
        #[trigger] jobs[j].delivery_id,
        x.delivery_id,
    ) by {
        if j < at - 1 {
            assert(text_lt(jobs[j].delivery_id, jobs[at - 1].delivery_id));
            crate::text::lemma_text_le_transitive(
                jobs[j].delivery_id,
                jobs[at - 1].delivery_id,
                x.delivery_id,
            );
        }
    }
    assert forall|k: int, j: int| 0 <= k < j < s.len() implies text_lt(
        #[trigger] s[k].delivery_id,
        #[trigger] s[j].delivery_id,
    ) by {
        let a = if k < at { k } else { k - 1 };
        let b = if j < at { j } else { j - 1 };
        if k != at && j != at {
            assert(text_lt(jobs[a].delivery_id, jobs[b].delivery_id));
        } else if k == at {
            assert(!by_id()(jobs[b], x));
        } else {
            assert(text_lt(jobs[k].delivery_id, x.delivery_id));
        }
    }
    if at > 0 {
        assert(by_id()(jobs[at - 1], x));
    }
    crate::sort::lemma_insert_at(jobs, x, by_id(), at);
}

fn accepted_no_later(a: &StoredPullRequestJob, b: &StoredPullRequestJob) -> (r: bool)
    ensures
        r == (a.sequence <= b.sequence),
{
    a.sequence <= b.sequence
}

/// The jobs of one status, in the order of acceptance.
fn jobs_with_status(registry: &PullRequestJobRegistry, status: PullRequestJobStatus) -> (r: Vec<
    StoredPullRequestJob,
>)
    ensures
        job_views(r@) == with_status(registry@.jobs, status),
{
    let ghost p = |j: JobView| j.status == status;
    let ghost views = registry@.jobs;
    let mut r: Vec<StoredPullRequestJob> = Vec::new();
    let mut i: usize = 0;
    while i < registry.jobs.len()
        invariant
            i <= registry.jobs@.len(),
            views == job_views(registry.jobs@),
            p == (|j: JobView| j.status == status),
            job_views(r@) == views.take(i as int).filter(p),
        decreases registry.jobs@.len() - i,
    {
        proof {
            assert(views.take(i + 1) =~= views.take(i as int).push(views[i as int]));
            views.take(i as int).lemma_filter_push(views[i as int], p);
        }
        if registry.jobs[i].status == status {
            let j = registry.jobs[i].clone();
            proof {
                lemma_job_views_push(r@, j);
            }
            r.push(j);
        }
        i = i + 1;
    }
    proof {
        assert(views.take(i as int) =~= views);
        let le = |a: StoredPullRequestJob, b: StoredPullRequestJob| a.sequence <= b.sequence;
        crate::sort::lemma_sort_map(
            r@,
            le,
            |j: StoredPullRequestJob| j@,
            by_sequence(),
        );
    }
    sort_stable(
        &mut r,
        accepted_no_later,
        Ghost(|a: StoredPullRequestJob, b: StoredPullRequestJob| a.sequence <= b.sequence),
    );
    r
}

/// A new job for an accepted delivery.
fn job_for(input: PullRequestJobInput, sequence: u64) -> (r: StoredPullRequestJob)
    ensures
        r@ == new_job(input, sequence),
{
    StoredPullRequestJob {
        delivery_id: input.delivery_id,
        action: input.action,
        installation_id: input.installation_id,
        repository: input.repository,
        pull_request: input.pull_request,
        head_sha: input.head_sha,
        clone_url: input.clone_url,
        status: PullRequestJobStatus::Queued,
        attempts: 0,
        check_run_id: None,
        check_run_creation: CheckRunCreationState::NotStarted,
        finding_count: None,
        terminal_error: None,
        retry_not_before_unix_ms: None,
        lifecycle_retry_attempts: 0,
        sequence,
    }
}

/// The jobs once the delivery has displaced its rivals, and the displaced ones.
fn displace_rivals(jobs: &Vec<StoredPullRequestJob>, input: &PullRequestJobInput) -> (r: (
    Vec<StoredPullRequestJob>,
    Vec<StoredPullRequestJob>,
))
    ensures
        job_views(r.0@) == superseding(job_views(jobs@), *input),
        job_views(r.1@) == displaced_jobs(job_views(jobs@), *input),
{
    let ghost views = job_views(jobs@);
    let ghost p = displaces(*input);
    let ghost g = displacement(*input);
    let mut reason: String = owned("superseded by newer delivery ");
    reason.append(input.delivery_id.as_str());
    let mut next: Vec<StoredPullRequestJob> = Vec::new();
    let mut cancelled: Vec<StoredPullRequestJob> = Vec::new();
    let mut i: usize = 0;
    proof {
        assert(views.take(0) =~= Seq::<JobView>::empty());
        reveal(Seq::filter);
        assert(job_views(cancelled@) =~= views.take(0).filter(p).map_values(g));
    }
    while i < jobs.len()
        invariant
            i <= jobs@.len(),
            views == job_views(jobs@),
            p == displaces(*input),
            g == displacement(*input),
            reason@ == superseded_by(input.delivery_id@),
            job_views(next@) =~= superseding(views.take(i as int), *input),
            job_views(cancelled@) == views.take(i as int).filter(p).map_values(g),
        decreases jobs@.len() - i,
    {
        proof {
            assert(views.take(i + 1) =~= views.take(i as int).push(views[i as int]));
            views.take(i as int).lemma_filter_push(views[i as int], p);
            let kept = views.take(i as int).filter(p);
            assert(kept.push(views[i as int]).map_values(g) =~= kept.map_values(g).push(
                g(views[i as int]),
            ));
        }
        let mut job = jobs[i].clone();
        if job.is_for(input.repository.as_str(), input.pull_request) && job.status.is_active() {
            job.status = PullRequestJobStatus::CancellationPending;
            job.terminal_error = Some(reason.clone());
            let copy = job.clone();
            proof {
                lemma_job_views_push(cancelled@, copy);
            }
            cancelled.push(copy);
        }
        proof {
            lemma_job_views_push(next@, job);
        }
        next.push(job);
        i = i + 1;
    }
    proof {
        assert(views.take(i as int) =~= views);
    }
    (next, cancelled)
}

/// Puts a job in its place.
fn insert_job(registry: &mut PullRequestJobRegistry, job: StoredPullRequestJob)
    requires
        old(registry).wf(),
        forall|k: int|
            0 <= k < old(registry)@.jobs.len() ==> (#[trigger] old(
                registry,
            )@.jobs[k]).delivery_id != job@.delivery_id,
    ensures
        final(registry).wf(),
        final(registry)@ == (RegistryView {
            jobs: insert_stable(old(registry)@.jobs, job@, by_id()),
            ..old(registry)@
        }),
{
    let ghost views = registry@.jobs;
    let ghost before = registry.jobs@;
    let n: usize = registry.jobs.len();
    let mut at: usize = 0;
    while at < n && at_most(
        registry.jobs[at].delivery_id.as_str(),
        job.delivery_id.as_str(),
    )
        invariant
            at <= n,
            n == registry.jobs@.len(),
            *registry == *old(registry),
            views == job_views(registry.jobs@),
            at == 0 || text_le(views[at - 1].delivery_id, job.delivery_id@),
        decreases n - at,
    {
        assert(views[at as int].delivery_id == registry.jobs@[at as int].delivery_id@);
        at = at + 1;
    }
    proof {
        if at < n {
            assert(views[at as int].delivery_id == registry.jobs@[at as int].delivery_id@);
        }
        lemma_insert_ascending(views, job@, at as int);
    }
    registry.jobs.insert(at, job);
    proof {
        assert(job_views(registry.jobs@) =~= views.insert(at as int, job@));
    }
}

/// A transition of one job: it applies where the job is there and `applies` holds of it, and then
/// changes it by `f`, after which finished jobs beyond the capacity may be dropped.
pub open spec fn one_job_step(
    store: PullRequestJobStore,
    id: Seq<char>,
    applies: spec_fn(JobView) -> bool,
    f: spec_fn(JobView) -> JobView,
    prunes: bool,
    r: StoreStep<Option<StoredPullRequestJob>>,
) -> bool {
    let jobs = store.registry@.jobs;
    let found = lookup(jobs, id);
    let hit = found is Some && applies(found.unwrap());
    match r {
        StoreStep::SyncParent => store.directory_sync_pending,
        StoreStep::Done(o) => !store.directory_sync_pending && !hit && o is None,
        StoreStep::Write(candidate, o) => {
            let changed = with_job(jobs, id, f);
            &&& !store.directory_sync_pending
            &&& hit
            &&& candidate.wf()
            &&& candidate@ == (RegistryView {
                jobs: if prunes {
                    pruned(changed)
                } else {
                    changed
                },
                ..store.registry@
            })
            &&& opt_job(o) == Some(f(found.unwrap()))
        },
    }
}

/// What accepting a delivery comes to: the parent directory is synced first where that is owed, a
/// delivery that is known is answered as such, and any other is to be written.
pub open spec fn acceptance(
    store: PullRequestJobStore,
    input: PullRequestJobInput,
    step: StoreStep<PullRequestJobAdmission>,
) -> bool {
    match step {
        StoreStep::SyncParent => store.directory_sync_pending,
        StoreStep::Done(admission) => {
            &&& !store.directory_sync_pending
            &&& lookup(store.registry@.jobs, input.delivery_id@) is Some
            &&& admission is DuplicateDelivery
        },
        StoreStep::Write(candidate, admission) => {
            &&& !store.directory_sync_pending
            &&& lookup(store.registry@.jobs, input.delivery_id@) is None
            &&& candidate.wf()
            &&& candidate@ == accepting(store.registry@, input)
            &&& admission matches PullRequestJobAdmission::Accepted { job, cancellation_pending }
            &&& job@ == new_job(input, store.registry.next_sequence)
            &&& job_views(cancellation_pending@) == displaced_jobs(store.registry@.jobs, input)
        },
    }
}

/// What a store becomes, and what is reported, once writing a candidate has ended.
pub open spec fn committed<T>(
    before: PullRequestJobStore,
    candidate: PullRequestJobRegistry,
    result: T,
    outcome: PersistOutcome,
    after: PullRequestJobStore,
    r: Result<T, PullRequestJobStoreError>,
) -> bool {
    &&& after.path == before.path
    &&& match outcome {
        PersistOutcome::Saved => {
            &&& after.registry == candidate
            &&& after.directory_sync_pending == before.directory_sync_pending
            &&& r == Ok::<T, PullRequestJobStoreError>(result)
        },
        PersistOutcome::NotWritten(e) => {
            &&& r == Err::<T, PullRequestJobStoreError>(e)
            &&& if e is PostRenameDirectorySync {
                after.registry == candidate && after.directory_sync_pending
            } else {
                after == before
            }
        },
        PersistOutcome::Unsynced(e) => {
            &&& after.registry == candidate
            &&& after.directory_sync_pending
            &&& r matches Err(PullRequestJobStoreError::PostRenameDirectorySync(inner))
            &&& *inner == e
        },
    }
}

impl PullRequestJobStore {
    pub open spec fn wf(&self) -> bool {
        self.registry.wf()
    }

    /// A store over a registry that was read from, or is to be written to, `path`.
    pub fn new(path: String, registry: PullRequestJobRegistry) -> (r: Self)
        requires
            registry.wf(),
        ensures
            r.wf(),
            r.path == path,
            r.registry == registry,
            !r.directory_sync_pending,
    {
        PullRequestJobStore { path, registry, directory_sync_pending: false }
    }

    /// Where the registry is stored.
    pub fn path(&self) -> (r: &str)
        ensures
            r@ == self.path@,
    {
        self.path.as_str()
    }

    /// Takes up the outcome of writing a candidate.
    ///
    /// The registry changes only where the candidate is in place. Where the parent directory
    /// could not be synced afterwards, the candidate is adopted and nothing more is written until
    /// that sync succeeds.
    pub fn commit<T>(
        &mut self,
        candidate: PullRequestJobRegistry,
        result: T,
        outcome: PersistOutcome,
    ) -> (r: Result<T, PullRequestJobStoreError>)
        requires
            candidate.wf(),
            old(self).wf(),
        ensures
            final(self).wf(),
            committed(*old(self), candidate, result, outcome, *final(self), r),
    {
        match outcome {
            PersistOutcome::Saved => {
                self.registry = candidate;
                Ok(result)
            },
            PersistOutcome::NotWritten(e) => {
                if e.state_transition_applied() {
                    self.registry = candidate;
                    self.directory_sync_pending = true;
                }
                Err(e)
            },
            PersistOutcome::Unsynced(e) => {
                self.registry = candidate;
                self.directory_sync_pending = true;
                Err(PullRequestJobStoreError::PostRenameDirectorySync(Box::new(e)))
            },
        }
    }

    /// Takes up the outcome of syncing the parent directory.
    pub fn parent_synced(&mut self, outcome: Result<(), PullRequestJobStoreError>) -> (r: Result<
        (),
        PullRequestJobStoreError,
    >)
        ensures
            r == outcome,
            final(self).path == old(self).path,
            final(self).registry == old(self).registry,
            final(self).directory_sync_pending == (old(self).directory_sync_pending
                && outcome is Err),
    {
        if outcome.is_ok() {
            self.directory_sync_pending = false;
        }
        outcome
    }

    /// The jobs that wait for a worker, in the order of acceptance.
    pub fn queued_jobs(&self) -> (r: Vec<StoredPullRequestJob>)
        ensures
            job_views(r@) == with_status(self.registry@.jobs, PullRequestJobStatus::Queued),
    {
        jobs_with_status(&self.registry, PullRequestJobStatus::Queued)
    }

    /// The jobs whose cancellation is still to be shown, in the order of acceptance.
    pub fn cancellation_pending_jobs(&self) -> (r: Vec<StoredPullRequestJob>)
        ensures
            job_views(r@) == with_status(
                self.registry@.jobs,
                PullRequestJobStatus::CancellationPending,
            ),
    {
        jobs_with_status(&self.registry, PullRequestJobStatus::CancellationPending)
    }

    /// The job of the given delivery.
    pub fn job(&self, delivery_id: &str) -> (r: Option<StoredPullRequestJob>)
        requires
            self.wf(),
        ensures
            opt_job(r) == lookup(self.registry@.jobs, delivery_id@),
    {
        match self.registry.position(delivery_id) {
            Some(i) => Some(self.registry.jobs[i].clone()),
            None => None,
        }
    }

    /// Accepts a delivery that is not known yet, and displaces the active jobs for its pull
    /// request.
    pub fn accept(&self, input: PullRequestJobInput) -> (r: StoreStep<PullRequestJobAdmission>)
        requires
            self.wf(),
            self.registry.next_sequence < u64::MAX,
        ensures
            acceptance(*self, input, r),
    {
        if self.directory_sync_pending {
            return StoreStep::SyncParent;
        }
        if self.registry.position(input.delivery_id.as_str()).is_some() {
            return StoreStep::Done(PullRequestJobAdmission::DuplicateDelivery);
        }
        let (jobs, cancelled) = displace_rivals(&self.registry.jobs, &input);
        let sequence: u64 = self.registry.next_sequence;
        let job = job_for(input, sequence);
        let copy = job.clone();
        let ghost views = self.registry@.jobs;
        proof {
            lemma_same_ids_ascending(views, job_views(jobs@));
            lemma_lookup(views, input.delivery_id@);
            assert forall|k: int| 0 <= k < jobs@.len() implies (#[trigger] job_views(
                jobs@,
            )[k]).delivery_id != job@.delivery_id by {
                assert(job_views(jobs@)[k].delivery_id == views[k].delivery_id);
            }
        }
        let mut next = PullRequestJobRegistry {
            schema_version: self.registry.schema_version,
            next_sequence: sequence + 1,
            jobs,
        };
        insert_job(&mut next, job);
        prune_terminal_jobs(&mut next);
        StoreStep::Write(
            next,
            PullRequestJobAdmission::Accepted {
                job: Box::new(copy),
                cancellation_pending: cancelled,
            },
        )
    }

    /// Takes interrupted work up again after a restart.
    ///
    /// Jobs whose cancellation is still to be shown stay as they are.
    pub fn recover_non_terminal(&self) -> (r: StoreStep<PullRequestJobRecovery>)
        requires
            self.wf(),
        ensures
            ({
                let jobs = self.registry@.jobs;
                match r {
                    StoreStep::SyncParent => self.directory_sync_pending,
                    StoreStep::Done(found) => {
                        &&& !self.directory_sync_pending
                        &&& recovering(jobs) == jobs
                        &&& job_views(found.queued@) == with_status(
                            jobs,
                            PullRequestJobStatus::Queued,
                        )
                        &&& job_views(found.cancellation_pending@) == with_status(
                            jobs,
                            PullRequestJobStatus::CancellationPending,
                        )
                    },
                    StoreStep::Write(candidate, found) => {
                        &&& !self.directory_sync_pending
                        &&& recovering(jobs) != jobs
                        &&& candidate.wf()
                        &&& candidate@ == (RegistryView {
                            jobs: pruned(recovering(jobs)),
                            ..self.registry@
                        })
                        &&& job_views(found.queued@) == with_status(
                            candidate@.jobs,
                            PullRequestJobStatus::Queued,
                        )
                        &&& job_views(found.cancellation_pending@) == with_status(
                            candidate@.jobs,
                            PullRequestJobStatus::CancellationPending,
                        )
                    },
                }
            }),
    {
        if self.directory_sync_pending {
            return StoreStep::SyncParent;
        }
        let ghost jobs = self.registry@.jobs;
        let (waiting, any_interrupted) = requeue_interrupted(&self.registry.jobs);
        let (kept, any_displaced) = keep_newest(&waiting);
        proof {
            lemma_same_ids_ascending(jobs, job_views(waiting@));
            lemma_same_ids_ascending(job_views(waiting@), job_views(kept@));
        }
        let mut next = PullRequestJobRegistry {
            schema_version: self.registry.schema_version,
            next_sequence: self.registry.next_sequence,
            jobs: kept,
        };
        if any_interrupted || any_displaced {
            proof {
                lemma_recovery_changes(jobs, any_interrupted);
            }
            prune_terminal_jobs(&mut next);
            let found = PullRequestJobRecovery {
                queued: jobs_with_status(&next, PullRequestJobStatus::Queued),
                cancellation_pending: jobs_with_status(
                    &next,
                    PullRequestJobStatus::CancellationPending,
                ),
            };
            StoreStep::Write(next, found)
        } else {
            StoreStep::Done(
                PullRequestJobRecovery {
                    queued: self.queued_jobs(),
                    cancellation_pending: self.cancellation_pending_jobs(),
                },
            )
        }
    }

    /// Makes jobs whose retry time has come wait for a worker again.
    pub fn requeue_due_retry_pending(&self, now_unix_ms: u64) -> (r: StoreStep<
        Vec<StoredPullRequestJob>,
    >)
        requires
            self.wf(),
        ensures
            ({
                let jobs = self.registry@.jobs;
                let due = jobs.filter(retry_ready(now_unix_ms));
                match r {
                    StoreStep::SyncParent => self.directory_sync_pending,
                    StoreStep::Done(v) => !self.directory_sync_pending && due.len() == 0
                        && v@.len() == 0,
                    StoreStep::Write(candidate, v) => {
                        &&& !self.directory_sync_pending
                        &&& due.len() > 0
                        &&& candidate.wf()
                        &&& candidate@ == (RegistryView {
                            jobs: retries_requeued(jobs, now_unix_ms),
                            ..self.registry@
                        })
                        &&& job_views(v@) == due.map_values(|j: JobView| requeued(j))
                    },
                }
            }),
    {
        if self.directory_sync_pending {
            return StoreStep::SyncParent;
        }
        let ghost views = self.registry@.jobs;
        let ghost p = retry_ready(now_unix_ms);
        let ghost g = |j: JobView| requeued(j);
        let mut next: Vec<StoredPullRequestJob> = Vec::new();
        let mut out: Vec<StoredPullRequestJob> = Vec::new();
        let mut i: usize = 0;
        proof {
            assert(views.take(0) =~= Seq::<JobView>::empty());
            reveal(Seq::filter);
            assert(job_views(out@) =~= views.take(0).filter(p).map_values(g));
        }
        while i < self.registry.jobs.len()
            invariant
                i <= self.registry.jobs@.len(),
                views == job_views(self.registry.jobs@),
                p == retry_ready(now_unix_ms),
                g == (|j: JobView| requeued(j)),
                job_views(next@) =~= retries_requeued(views.take(i as int), now_unix_ms),
                job_views(out@) == views.take(i as int).filter(p).map_values(g),
            decreases self.registry.jobs@.len() - i,
        {
            proof {
                assert(views.take(i + 1) =~= views.take(i as int).push(views[i as int]));
                views.take(i as int).lemma_filter_push(views[i as int], p);
                let kept = views.take(i as int).filter(p);
                assert(kept.push(views[i as int]).map_values(g) =~= kept.map_values(g).push(
                    g(views[i as int]),
                ));
            }
            let mut job = self.registry.jobs[i].clone();
            if job.status == PullRequestJobStatus::RetryPending && job.retry_is_due(now_unix_ms) {
                job.status = PullRequestJobStatus::Queued;
                job.retry_not_before_unix_ms = None;
                let copy = job.clone();
                proof {
                    lemma_job_views_push(out@, copy);
                }
                out.push(copy);
            }
            proof {
                lemma_job_views_push(next@, job);
            }
            next.push(job);
            i = i + 1;
        }
        proof {
            assert(views.take(i as int) =~= views);
            assert(job_views(out@).len() == views.filter(p).len());
            lemma_same_ids_ascending(views, job_views(next@));
        }
        if out.len() == 0 {
            return StoreStep::Done(out);
        }
        StoreStep::Write(
            PullRequestJobRegistry {
                schema_version: self.registry.schema_version,
                next_sequence: self.registry.next_sequence,
                jobs: next,
            },
            out,
        )
    }

    /// Makes running jobs that their worker gave up wait for a worker again.
    pub fn requeue_abandoned_running(&self, delivery_ids: &[String]) -> (r: StoreStep<
        Vec<StoredPullRequestJob>,
    >)
        requires
            self.wf(),
        ensures
            ({
                let end = abandoned_requeued(
                    self.registry@.jobs,
                    texts(delivery_ids@),
                    delivery_ids@.len() as int,
                );
                match r {
                    StoreStep::SyncParent => self.directory_sync_pending,
                    StoreStep::Done(v) => !self.directory_sync_pending && delivery_ids@.len() == 0
                        && v@.len() == 0,
                    StoreStep::Write(candidate, v) => {
                        &&& !self.directory_sync_pending
                        &&& delivery_ids@.len() > 0
                        &&& candidate.wf()
                        &&& candidate@ == (RegistryView { jobs: end.0, ..self.registry@ })
                        &&& job_views(v@) == end.1
                    },
                }
            }),
    {
        if self.directory_sync_pending {
            return StoreStep::SyncParent;
        }
        if delivery_ids.len() == 0 {
            return StoreStep::Done(Vec::new());
        }
        let ghost views = self.registry@.jobs;
        let ghost ids = texts(delivery_ids@);
        let mut next = self.registry.clone();
        let mut out: Vec<StoredPullRequestJob> = Vec::new();
        let mut i: usize = 0;
        assert(job_views(out@) =~= Seq::<JobView>::empty());
        while i < delivery_ids.len()
            invariant
                i <= delivery_ids@.len(),
                next.wf(),
                next.schema_version == self.registry.schema_version,
                next.next_sequence == self.registry.next_sequence,
                ids == texts(delivery_ids@),
                (next@.jobs, job_views(out@)) == abandoned_requeued(views, ids, i as int),
            decreases delivery_ids@.len() - i,
        {
            assert(ids[i as int] == delivery_ids@[i as int]@);
            if let Some(k) = next.position(delivery_ids[i].as_str()) {
                if next.jobs[k].status == PullRequestJobStatus::Running {
                    let mut job = next.jobs[k].clone();
                    job.status = PullRequestJobStatus::Queued;
                    job.retry_not_before_unix_ms = None;
                    let copy = job.clone();
                    proof {
                        lemma_with_job_at(next@.jobs, k as int, |x: JobView| requeued(x));
                        lemma_job_views_push(out@, copy);
                    }
                    next = next.replaced(k, job);
                    out.push(copy);
                }
            }
            i = i + 1;
        }
        StoreStep::Write(next, out)
    }

    /// A worker takes a waiting job.
    pub fn mark_running(&self, delivery_id: &str) -> (r: StoreStep<Option<StoredPullRequestJob>>)
        requires
            self.wf(),
            lookup(self.registry@.jobs, delivery_id@) matches Some(j) ==> j.attempts < u32::MAX,
        ensures
            one_job_step(
                *self,
                delivery_id@,
                |j: JobView| j.status == PullRequestJobStatus::Queued,
                |j: JobView| started(j),
                false,
                r,
            ),
    {
        if self.directory_sync_pending {
            return StoreStep::SyncParent;
        }
        match self.registry.position(delivery_id) {
            Some(i) if self.registry.jobs[i].status == PullRequestJobStatus::Queued => {
                let mut job = self.registry.jobs[i].clone();
                job.status = PullRequestJobStatus::Running;
                job.terminal_error = None;
                job.retry_not_before_unix_ms = None;
                job.attempts = job.attempts + 1;
                let copy = job.clone();
                proof {
                    lemma_with_job_at(self.registry@.jobs, i as int, |j: JobView| started(j));
                }
                StoreStep::Write(self.registry.replaced(i, job), Some(copy))
            },
            _ => StoreStep::Done(None),
        }
    }

    /// Records that a check run is about to be created, so that a later cancellation can tell an
    /// absent check from a lost reply.
    pub fn mark_check_run_creation_started(&self, delivery_id: &str) -> (r: StoreStep<
        Option<StoredPullRequestJob>,
    >)
        requires
            self.wf(),
        ensures
            ({
                let jobs = self.registry@.jobs;
                let found = lookup(jobs, delivery_id@);
                let open = found is Some && found.unwrap().status.active()
                    && found.unwrap().check_run_id is None;
                match r {
                    StoreStep::SyncParent => self.directory_sync_pending,
                    StoreStep::Done(o) => {
                        &&& !self.directory_sync_pending
                        &&& if open {
                            found.unwrap().check_run_creation == CheckRunCreationState::Creating
                                && opt_job(o) == found
                        } else {
                            o is None
                        }
                    },
                    StoreStep::Write(candidate, o) => {
                        let f = |j: JobView| with_creation(j, CheckRunCreationState::Creating);
                        &&& !self.directory_sync_pending
                        &&& open
                        &&& found.unwrap().check_run_creation != CheckRunCreationState::Creating
                        &&& candidate.wf()
                        &&& candidate@ == (RegistryView {
                            jobs: with_job(jobs, delivery_id@, f),
                            ..self.registry@
                        })
                        &&& opt_job(o) == Some(f(found.unwrap()))
                    },
                }
            }),
    {
        if self.directory_sync_pending {
            return StoreStep::SyncParent;
        }
        match self.registry.position(delivery_id) {
            None => StoreStep::Done(None),
            Some(i) => {
                let existing = &self.registry.jobs[i];
                if existing.status.is_terminal() || existing.status
                    == PullRequestJobStatus::CancellationPending
                    || existing.check_run_id.is_some() {
                    return StoreStep::Done(None);
                }
                if existing.check_run_creation == CheckRunCreationState::Creating {
                    return StoreStep::Done(Some(existing.clone()));
                }
                let mut job = existing.clone();
                job.check_run_creation = CheckRunCreationState::Creating;
                let copy = job.clone();
                proof {
                    lemma_with_job_at(
                        self.registry@.jobs,
                        i as int,
                        |j: JobView| with_creation(j, CheckRunCreationState::Creating),
                    );
                }
                StoreStep::Write(self.registry.replaced(i, job), Some(copy))
            },
        }
    }

    /// Forgets the intent to create a check run, where no request can have succeeded.
    pub fn reset_check_run_creation(&self, delivery_id: &str) -> (r: StoreStep<
        Option<StoredPullRequestJob>,
    >)
        requires
            self.wf(),
        ensures
            one_job_step(
                *self,
                delivery_id@,
                |j: JobView|
                    j.status.active() && j.check_run_id is None && j.check_run_creation
                        == CheckRunCreationState::Creating,
                |j: JobView| with_creation(j, CheckRunCreationState::NotStarted),
                false,
                r,
            ),
    {
        if self.directory_sync_pending {
            return StoreStep::SyncParent;
        }
        match self.registry.position(delivery_id) {
            None => StoreStep::Done(None),
            Some(i) => {
                let existing = &self.registry.jobs[i];
                if existing.status.is_terminal() || existing.status
                    == PullRequestJobStatus::CancellationPending
                    || existing.check_run_id.is_some() || existing.check_run_creation
                    != CheckRunCreationState::Creating {
                    return StoreStep::Done(None);
                }
                let mut job = existing.clone();
                job.check_run_creation = CheckRunCreationState::NotStarted;
                let copy = job.clone();
                proof {
                    lemma_with_job_at(
                        self.registry@.jobs,
                        i as int,
                        |j: JobView| with_creation(j, CheckRunCreationState::NotStarted),
                    );
                }
                StoreStep::Write(self.registry.replaced(i, job), Some(copy))
            },
        }
    }

    /// Records the id of a created check run, even where the job is to be cancelled by now.
    pub fn attach_check_run_id(&self, delivery_id: &str, check_run_id: u64) -> (r: StoreStep<
        CheckRunAttachment,
    >)
        requires
            self.wf(),
        ensures
            ({
                let jobs = self.registry@.jobs;
                let found = lookup(jobs, delivery_id@);
                let settled = found is Some && !found.unwrap().status.terminal()
                    && found.unwrap().check_run_id == Some(check_run_id)
                    && found.unwrap().check_run_creation == CheckRunCreationState::Attached;
                match r {
                    StoreStep::SyncParent => self.directory_sync_pending,
                    StoreStep::Done(a) => {
                        &&& !self.directory_sync_pending
                        &&& match found {
                            None => a is Missing,
                            Some(j) => if j.status.terminal() {
                                a is IgnoredTerminal
                            } else {
                                settled && attachment_of(a, j)
                            },
                        }
                    },
                    StoreStep::Write(candidate, a) => {
                        let f = |j: JobView| attached(j, check_run_id);
                        &&& !self.directory_sync_pending
                        &&& found is Some
                        &&& !found.unwrap().status.terminal()
                        &&& !settled
                        &&& candidate.wf()
                        &&& candidate@ == (RegistryView {
                            jobs: with_job(jobs, delivery_id@, f),
                            ..self.registry@
                        })
                        &&& attachment_of(a, f(found.unwrap()))
                    },
                }
            }),
    {
        if self.directory_sync_pending {
            return StoreStep::SyncParent;
        }
        match self.registry.position(delivery_id) {
            None => StoreStep::Done(CheckRunAttachment::Missing),
            Some(i) => {
                let existing = &self.registry.jobs[i];
                if existing.status.is_terminal() {
                    return StoreStep::Done(CheckRunAttachment::IgnoredTerminal);
                }
                let same_id = match existing.check_run_id {
                    Some(id) => id == check_run_id,
                    None => false,
                };
                if same_id && existing.check_run_creation == CheckRunCreationState::Attached {
                    return StoreStep::Done(attachment(existing.clone()));
                }
                let mut job = existing.clone();
                job.check_run_id = Some(check_run_id);
                job.check_run_creation = CheckRunCreationState::Attached;
                let copy = job.clone();
                proof {
                    lemma_with_job_at(
                        self.registry@.jobs,
                        i as int,
                        |j: JobView| attached(j, check_run_id),
                    );
                }
                StoreStep::Write(self.registry.replaced(i, job), attachment(copy))
            },
        }
    }

    /// Finishes a running job with the number of its findings.
    pub fn mark_completed(&self, delivery_id: &str, finding_count: usize) -> (r: StoreStep<
        Option<StoredPullRequestJob>,
    >)
        requires
            self.wf(),
        ensures
            one_job_step(
                *self,
                delivery_id@,
                |j: JobView| j.status == PullRequestJobStatus::Running,
                |j: JobView|
                    finished(
                        j,
                        if finding_count == 0 {
                            PullRequestJobStatus::Succeeded
                        } else {
                            PullRequestJobStatus::Findings
                        },
                        Some(finding_count),
                        None,
                    ),
                true,
                r,
            ),
    {
        let status = if finding_count == 0 {
            PullRequestJobStatus::Succeeded
        } else {
            PullRequestJobStatus::Findings
        };
        let r = self.mark_terminal(delivery_id, status, Some(finding_count), None);
        proof {
            let f = |j: JobView| finished(j, status, Some(finding_count), None);
            let g = |j: JobView|
                finished(
                    j,
                    if finding_count == 0 {
                        PullRequestJobStatus::Succeeded
                    } else {
                        PullRequestJobStatus::Findings
                    },
                    Some(finding_count),
                    None,
                );
            assert(with_job(self.registry@.jobs, delivery_id@, f) =~= with_job(
                self.registry@.jobs,
                delivery_id@,
                g,
            ));
        }
        r
    }

    /// Finishes a running job that failed.
    pub fn mark_failed(&self, delivery_id: &str, error: String) -> (r: StoreStep<
        Option<StoredPullRequestJob>,
    >)
        requires
            self.wf(),
        ensures
            one_job_step(
                *self,
                delivery_id@,
                |j: JobView| j.status == PullRequestJobStatus::Running,
                |j: JobView| finished(j, PullRequestJobStatus::Failed, None, Some(error@)),
                true,
                r,
            ),
    {
        let r = self.mark_terminal(delivery_id, PullRequestJobStatus::Failed, None, Some(error));
        proof {
            let f = |j: JobView|
                finished(j, PullRequestJobStatus::Failed, None, opt_text(Some(error)));
            let g = |j: JobView| finished(j, PullRequestJobStatus::Failed, None, Some(error@));
            assert(with_job(self.registry@.jobs, delivery_id@, f) =~= with_job(
                self.registry@.jobs,
                delivery_id@,
                g,
            ));
        }
        r
    }

    /// The work is done, but its check run could not be finished: the job stays open and is
    /// tried again later.
    pub fn mark_retry_pending(&self, delivery_id: &str, error: String, now_unix_ms: u64) -> (r:
        StoreStep<Option<StoredPullRequestJob>>)
        requires
            self.wf(),
        ensures
            one_job_step(
                *self,
                delivery_id@,
                |j: JobView| j.status == PullRequestJobStatus::Running,
                |j: JobView|
                    deferred(j, PullRequestJobStatus::RetryPending, error@, now_unix_ms),
                false,
                r,
            ),
    {
        if self.directory_sync_pending {
            return StoreStep::SyncParent;
        }
        match self.registry.position(delivery_id) {
            Some(i) if self.registry.jobs[i].status == PullRequestJobStatus::Running => {
                let mut job = self.registry.jobs[i].clone();
                let attempts: u32 = next_attempt(job.lifecycle_retry_attempts);
                let until: u64 = retry_not_before_unix_ms(now_unix_ms, attempts);
                job.status = PullRequestJobStatus::RetryPending;
                job.lifecycle_retry_attempts = attempts;
                job.retry_not_before_unix_ms = Some(until);
                let ghost text = error@;
                job.terminal_error = Some(error);
                let copy = job.clone();
                proof {
                    lemma_with_job_at(
                        self.registry@.jobs,
                        i as int,
                        |j: JobView|
                            deferred(j, PullRequestJobStatus::RetryPending, text, now_unix_ms),
                    );
                }
                StoreStep::Write(self.registry.replaced(i, job), Some(copy))
            },
            _ => StoreStep::Done(None),
        }
    }

    /// Marks an open job as to be cancelled.
    pub fn mark_cancellation_pending(&self, delivery_id: &str, reason: String) -> (r: StoreStep<
        Option<StoredPullRequestJob>,
    >)
        requires
            self.wf(),
        ensures
            ({
                let jobs = self.registry@.jobs;
                let found = lookup(jobs, delivery_id@);
                match r {
                    StoreStep::SyncParent => self.directory_sync_pending,
                    StoreStep::Done(o) => {
                        &&& !self.directory_sync_pending
                        &&& match found {
                            None => o is None,
                            Some(j) => if j.status == PullRequestJobStatus::CancellationPending {
                                opt_job(o) == found
                            } else {
                                j.status.terminal() && o is None
                            },
                        }
                    },
                    StoreStep::Write(candidate, o) => {
                        let f = |j: JobView| cancelling(j, reason@);
                        &&& !self.directory_sync_pending
                        &&& found is Some
                        &&& found.unwrap().status.active()
                        &&& candidate.wf()
                        &&& candidate@ == (RegistryView {
                            jobs: with_job(jobs, delivery_id@, f),
                            ..self.registry@
                        })
                        &&& opt_job(o) == Some(f(found.unwrap()))
                    },
                }
            }),
    {
        if self.directory_sync_pending {
            return StoreStep::SyncParent;
        }
        match self.registry.position(delivery_id) {
            None => StoreStep::Done(None),
            Some(i) => {
                let existing = &self.registry.jobs[i];
                if existing.status == PullRequestJobStatus::CancellationPending {
                    return StoreStep::Done(Some(existing.clone()));
                }
                if existing.status.is_terminal() {
                    return StoreStep::Done(None);
                }
                let mut job = existing.clone();
                let ghost text = reason@;
                job.status = PullRequestJobStatus::CancellationPending;
                job.terminal_error = Some(reason);
                job.retry_not_before_unix_ms = None;
                job.lifecycle_retry_attempts = 0;
                let copy = job.clone();
                proof {
                    lemma_with_job_at(
                        self.registry@.jobs,
                        i as int,
                        |j: JobView| cancelling(j, text),
                    );
                }
                StoreStep::Write(self.registry.replaced(i, job), Some(copy))
            },
        }
    }

    /// Puts the next attempt to show a cancellation off.
    pub fn defer_cancellation_retry(&self, delivery_id: &str, error: String, now_unix_ms: u64) -> (r:
        StoreStep<Option<StoredPullRequestJob>>)
        requires
            self.wf(),
        ensures
            one_job_step(
                *self,
                delivery_id@,
                |j: JobView| j.status == PullRequestJobStatus::CancellationPending,
                |j: JobView|
                    deferred(j, PullRequestJobStatus::CancellationPending, error@, now_unix_ms),
                false,
                r,
            ),
    {
        if self.directory_sync_pending {
            return StoreStep::SyncParent;
        }
        match self.registry.position(delivery_id) {
            Some(i) if self.registry.jobs[i].status
                == PullRequestJobStatus::CancellationPending => {
                let mut job = self.registry.jobs[i].clone();
                let attempts: u32 = next_attempt(job.lifecycle_retry_attempts);
                let until: u64 = retry_not_before_unix_ms(now_unix_ms, attempts);
                job.lifecycle_retry_attempts = attempts;
                job.retry_not_before_unix_ms = Some(until);
                let ghost text = error@;
                job.terminal_error = Some(error);
                let copy = job.clone();
                proof {
                    lemma_with_job_at(
                        self.registry@.jobs,
                        i as int,
                        |j: JobView|
                            deferred(
                                j,
                                PullRequestJobStatus::CancellationPending,
                                text,
                                now_unix_ms,
                            ),
                    );
                }
                StoreStep::Write(self.registry.replaced(i, job), Some(copy))
            },
            _ => StoreStep::Done(None),
        }
    }

    /// Finishes a job whose cancellation has been shown. Until then a failed external update
    /// leaves the job to be tried again.
    pub fn mark_superseded(&self, delivery_id: &str) -> (r: StoreStep<Option<StoredPullRequestJob>>)
        requires
            self.wf(),
        ensures
            one_job_step(
                *self,
                delivery_id@,
                |j: JobView| j.status == PullRequestJobStatus::CancellationPending,
                |j: JobView| JobView { status: PullRequestJobStatus::Superseded, ..j },
                true,
                r,
            ),
    {
        if self.directory_sync_pending {
            return StoreStep::SyncParent;
        }
        match self.registry.position(delivery_id) {
            Some(i) if self.registry.jobs[i].status
                == PullRequestJobStatus::CancellationPending => {
                let mut job = self.registry.jobs[i].clone();
                job.status = PullRequestJobStatus::Superseded;
                let copy = job.clone();
                proof {
                    lemma_with_job_at(
                        self.registry@.jobs,
                        i as int,
                        |j: JobView| JobView { status: PullRequestJobStatus::Superseded, ..j },
                    );
                }
                let mut next = self.registry.replaced(i, job);
                prune_terminal_jobs(&mut next);
                StoreStep::Write(next, Some(copy))
            },
            _ => StoreStep::Done(None),
        }
    }

    fn mark_terminal(
        &self,
        delivery_id: &str,
        status: PullRequestJobStatus,
        finding_count: Option<usize>,
        terminal_error: Option<String>,
    ) -> (r: StoreStep<Option<StoredPullRequestJob>>)
        requires
            self.wf(),
            status.terminal(),
        ensures
            one_job_step(
                *self,
                delivery_id@,
                |j: JobView| j.status == PullRequestJobStatus::Running,
                |j: JobView| finished(j, status, finding_count, opt_text(terminal_error)),
                true,
                r,
            ),
    {
        if self.directory_sync_pending {
            return StoreStep::SyncParent;
        }
        match self.registry.position(delivery_id) {
            Some(i) if self.registry.jobs[i].status == PullRequestJobStatus::Running => {
                let mut job = self.registry.jobs[i].clone();
                let ghost error = opt_text(terminal_error);
                job.status = status;
                job.finding_count = finding_count;
                job.terminal_error = terminal_error;
                let copy = job.clone();
                proof {
                    lemma_with_job_at(
                        self.registry@.jobs,
                        i as int,
                        |j: JobView| finished(j, status, finding_count, error),
                    );
                }
                let mut next = self.registry.replaced(i, job);
                prune_terminal_jobs(&mut next);
                StoreStep::Write(next, Some(copy))
            },
            _ => StoreStep::Done(None),
        }
    }
}

/// What is reported of a job whose check run is known.
pub open spec fn attachment_of(a: CheckRunAttachment, j: JobView) -> bool {
    if j.status == PullRequestJobStatus::CancellationPending {
        a matches CheckRunAttachment::CancellationPending(job) && job@ == j
    } else {
        a matches CheckRunAttachment::Attached(job) && job@ == j
    }
}

fn attachment(job: StoredPullRequestJob) -> (r: CheckRunAttachment)
    ensures
        attachment_of(r, job@),
{
    if job.status == PullRequestJobStatus::CancellationPending {
        CheckRunAttachment::CancellationPending(job)
    } else {
        CheckRunAttachment::Attached(job)
    }
}

/// The jobs with the interrupted ones waiting again, and whether there were any.
fn requeue_interrupted(jobs: &Vec<StoredPullRequestJob>) -> (r: (Vec<StoredPullRequestJob>, bool))
    ensures
        job_views(r.0@) == interrupted_requeued(job_views(jobs@)),
        r.1 == exists|i: int|
            0 <= i < jobs@.len() && interrupted(#[trigger] job_views(jobs@)[i]),
        !r.1 ==> job_views(r.0@) == job_views(jobs@),
{
    let ghost views = job_views(jobs@);
    let mut next: Vec<StoredPullRequestJob> = Vec::new();
    let mut any: bool = false;
    let mut i: usize = 0;
    while i < jobs.len()
        invariant
            i <= jobs@.len(),
            views == job_views(jobs@),
            job_views(next@) =~= interrupted_requeued(views.take(i as int)),
            any == exists|k: int| 0 <= k < i && interrupted(#[trigger] views[k]),
            !any ==> job_views(next@) =~= views.take(i as int),
        decreases jobs@.len() - i,
    {
        let mut job = jobs[i].clone();
        if job.status == PullRequestJobStatus::Running || job.status
            == PullRequestJobStatus::RetryPending {
            assert(interrupted(views[i as int]));
            job.status = PullRequestJobStatus::Queued;
            job.retry_not_before_unix_ms = None;
            any = true;
        }
        proof {
            assert(views.take(i + 1) =~= views.take(i as int).push(views[i as int]));
            lemma_job_views_push(next@, job);
        }
        next.push(job);
        i = i + 1;
    }
    assert(views.take(i as int) =~= views);
    (next, any)
}

fn is_newest(jobs: &Vec<StoredPullRequestJob>, i: usize) -> (r: bool)
    requires
        i < jobs@.len(),
    ensures
        r == newest(job_views(jobs@), i as int),
{
    let ghost views = job_views(jobs@);
    let mut k: usize = 0;
    while k < jobs.len()
        invariant
            k <= jobs@.len(),
            i < jobs@.len(),
            views == job_views(jobs@),
            forall|m: int|
                0 <= m < k && m != i && #[trigger] rivals(views, i as int, m) ==> views[m].sequence
                    < views[i as int].sequence || (views[m].sequence == views[i as int].sequence
                    && i < m),
        decreases jobs@.len() - k,
    {
        if k != i && jobs[k].status == PullRequestJobStatus::Queued && jobs[k].is_for(
            jobs[i].repository.as_str(),
            jobs[i].pull_request,
        ) {
            assert(rivals(views, i as int, k as int));
            let behind = jobs[k].sequence < jobs[i].sequence || (jobs[k].sequence
                == jobs[i].sequence && i < k);
            if !behind {
                return false;
            }
        }
        k = k + 1;
    }
    true
}

/// The jobs with every waiting one displaced but the newest for each pull request, and whether
/// there were any.
fn keep_newest(jobs: &Vec<StoredPullRequestJob>) -> (r: (Vec<StoredPullRequestJob>, bool))
    ensures
        job_views(r.0@) == newest_kept(job_views(jobs@)),
        r.1 == (newest_kept(job_views(jobs@)) != job_views(jobs@)),
{
    let ghost views = job_views(jobs@);
    let mut next: Vec<StoredPullRequestJob> = Vec::new();
    let mut any: bool = false;
    let mut i: usize = 0;
    while i < jobs.len()
        invariant
            i <= jobs@.len(),
            views == job_views(jobs@),
            job_views(next@) =~= newest_kept(views).take(i as int),
            any ==> newest_kept(views) != views,
            !any ==> job_views(next@) =~= views.take(i as int),
        decreases jobs@.len() - i,
    {
        let mut job = jobs[i].clone();
        if job.status == PullRequestJobStatus::Queued && !is_newest(jobs, i) {
            job.status = PullRequestJobStatus::CancellationPending;
            job.terminal_error = Some(owned("superseded during restart recovery"));
            any = true;
            assert(newest_kept(views)[i as int].status != views[i as int].status);
        }
        proof {
            assert(views.take(i + 1) =~= views.take(i as int).push(views[i as int]));
            assert(newest_kept(views).take(i + 1) =~= newest_kept(views).take(i as int).push(
                newest_kept(views)[i as int],
            ));
            lemma_job_views_push(next@, job);
            assert(job@ == newest_kept(views)[i as int]);
        }
        next.push(job);
        i = i + 1;
    }
    proof {
        assert(views.take(i as int) =~= views);
        assert(newest_kept(views).take(i as int) =~= newest_kept(views));
    }
    (next, any)
}

proof fn lemma_recovery_changes(jobs: Seq<JobView>, any_interrupted: bool)
    requires
        any_interrupted == exists|i: int| 0 <= i < jobs.len() && interrupted(#[trigger] jobs[i]),
        !any_interrupted ==> interrupted_requeued(jobs) == jobs,
        any_interrupted || newest_kept(interrupted_requeued(jobs)) != interrupted_requeued(jobs),
    ensures
        recovering(jobs) != jobs,
{
    if any_interrupted {
        let i = choose|i: int| 0 <= i < jobs.len() && interrupted(#[trigger] jobs[i]);
        let w = interrupted_requeued(jobs);
        assert(w[i].status == PullRequestJobStatus::Queued);
        assert(!interrupted(newest_kept(w)[i]));
        assert(interrupted(jobs[i]));
        assert(recovering(jobs)[i] != jobs[i]);
    }
}

// ---------------------------------------------------------------------------
// Store paths
// ---------------------------------------------------------------------------

/// The path goes through `.` at its beginning or through `..`.
pub open spec fn traverses(path: Seq<char>) -> bool {
    exists|i: int|
        0 <= i < path_parts(path).len() && (#[trigger] path_parts(path)[i] is Current
            || path_parts(path)[i] is Parent)
}

/// A store path names a file without traversal.
pub open spec fn store_path_error(path: Seq<char>) -> Option<Seq<char>> {
    if traverses(path) {
        Some("path must not contain traversal components"@)
    } else if last_name(path) is None {
        Some("path must include a file name"@)
    } else {
        None
    }
}

/// The outcome that the given objection to a path stands for.
pub open spec fn path_verdict(
    r: Result<(), PullRequestJobStoreError>,
    objection: Option<Seq<char>>,
) -> bool {
    match objection {
        None => r is Ok,
        Some(text) => r matches Err(PullRequestJobStoreError::InvalidPath(e)) && e@ == text,
    }
}

/// Checks that a store path names a file without traversal.
pub fn validate_store_path(path: &str) -> (r: Result<(), PullRequestJobStoreError>)
    ensures
        path_verdict(r, store_path_error(path@)),
{
    let parts = components(path);
    let ghost views = path_parts(path@);
    let mut i: usize = 0;
    while i < parts.len()
        invariant
            i <= parts@.len(),
            views == path_parts(path@),
            views == crate::paths::part_views(parts@),
            forall|k: int| 0 <= k < i ==> !((#[trigger] views[k]) is Current || views[k] is Parent),
        decreases parts@.len() - i,
    {
        assert(views[i as int] == parts@[i as int]@);
        match &parts[i] {
            PathPart::Current | PathPart::Parent => {
                return Err(
                    PullRequestJobStoreError::InvalidPath(
                        owned("path must not contain traversal components"),
                    ),
                );
            },
            _ => {},
        }
        i = i + 1;
    }
    if file_name(path).is_none() {
        return Err(
            PullRequestJobStoreError::InvalidPath(owned("path must include a file name")),
        );
    }
    Ok(())
}

/// Checks a store path that an operator configured.
pub fn validate_operator_path(path: &str) -> (r: Result<(), PullRequestJobStoreError>)
    ensures
        path_verdict(
            r,
            if absolute(path@) {
                store_path_error(path@)
            } else {
                Some("FOXGUARD_PULL_REQUEST_JOBS_PATH must be absolute"@)
            },
        ),
{
    if !is_absolute(path) {
        return Err(
            PullRequestJobStoreError::InvalidPath(
                owned("FOXGUARD_PULL_REQUEST_JOBS_PATH must be absolute"),
            ),
        );
    }
    validate_store_path(path)
}

/// How the names of the files begin in which candidates are written.
pub open spec fn temp_prefix(file: Seq<char>) -> Seq<char> {
    "."@ + file + ".tmp."@
}

/// How the names of the files begin in which candidates for the store at `path` are written.
pub fn temp_file_prefix(path: &str) -> (r: Result<String, PullRequestJobStoreError>)
    ensures
        match last_name(path@) {
            Some(name) => r matches Ok(prefix) && prefix@ == temp_prefix(name),
            None => r matches Err(PullRequestJobStoreError::InvalidPath(e)) && e@
                == "path must include a file name"@,
        },
{
    match file_name(path) {
        Some(name) => {
            let mut prefix: String = owned(".");
            prefix.append(name.as_str());
            prefix.append(".tmp.");
            Ok(prefix)
        },
        None => Err(
            PullRequestJobStoreError::InvalidPath(owned("path must include a file name")),
        ),
    }
}

/// A file beside the store.
#[derive(Debug, PartialEq, Eq)]
pub struct SiblingFile {
    pub name: String,
    pub is_file: bool,
    /// When it was last written, as a count that grows with time.
    pub modified: u64,
}

/// The file may hold a candidate that was written but not put in place.
pub open spec fn stray(prefix: Seq<char>) -> spec_fn(SiblingFile) -> bool {
    |f: SiblingFile| prefix.is_prefix_of(f.name@) && f.is_file
}

/// The order in which stray candidates are tried: the latest first.
pub open spec fn latest_first() -> spec_fn(SiblingFile, SiblingFile) -> bool {
    |a: SiblingFile, b: SiblingFile| a.modified >= b.modified
}

fn no_earlier(a: &SiblingFile, b: &SiblingFile) -> (r: bool)
    ensures
        r == (a.modified >= b.modified),
{
    a.modified >= b.modified
}

/// The stray candidates to try, in order, when the store itself is missing.
pub fn stray_candidates(files: Vec<SiblingFile>, prefix: &str) -> (r: Vec<SiblingFile>)
    ensures
        r@ == stable_sort(files@.filter(stray(prefix@)), latest_first()),
{
    let ghost all = files@;
    let ghost p = stray(prefix@);
    let mut r: Vec<SiblingFile> = Vec::new();
    for file in it: files
        invariant
            it.seq() == all,
            p == stray(prefix@),
            r@ == all.take(it.index() as int).filter(p),
    {
        proof {
            let i = it.index() as int;
            assert(all.take(i + 1) =~= all.take(i).push(all[i]));
            all.take(i).lemma_filter_push(all[i], p);
        }
        if starts_with(file.name.as_str(), prefix) && file.is_file {
            r.push(file);
        }
    }
    assert(all.take(all.len() as int) =~= all);
    sort_stable(&mut r, no_earlier, Ghost(latest_first()));
    r
}

} // verus!
