//! Which jobs are handed out, kept and put back: none is passed over that could go, and no more are
//! dropped than must be.

use crate::github_app::dispatcher::{job_key, scheduled, KeyView};
use crate::github_app::job_laws::requeueing_touches_only_running_jobs;
use crate::github_app::pull_request_job_store::{
    abandoned_requeued, displaced_jobs, ids_ascending, interrupted_requeued, lemma_lookup_at,
    lemma_oldest_terminal, lookup, new_job, newest, oldest_terminal, pruned, recovering, requeued,
    retries_requeued, rivals, started, superseding, terminal_count, JobView, PullRequestJobInput,
    PullRequestJobStatus, RECENT_DELIVERY_CAPACITY,
};
use vstd::prelude::*;

verus! {

// ---------------------------------------------------------------------------
// Handing out
// ---------------------------------------------------------------------------

/// The pull requests of the jobs.
pub open spec fn keys_of(jobs: Seq<JobView>) -> Seq<KeyView> {
    jobs.map_values(|j: JobView| job_key(j))
}

/// Jobs are handed out in the order in which they wait: those that wait first are looked at as if
/// they were alone, and the others with what is then under way and the room that is left.
pub proof fn earlier_jobs_are_handed_out_first(
    a: Seq<JobView>,
    b: Seq<JobView>,
    outstanding: Seq<KeyView>,
    room: nat,
)
    ensures
        scheduled(a, outstanding, room).len() <= room,
        scheduled(a + b, outstanding, room) == scheduled(a, outstanding, room) + scheduled(
            b,
            outstanding + keys_of(scheduled(a, outstanding, room)),
            (room - scheduled(a, outstanding, room).len()) as nat,
        ),
    decreases a.len(),
{
    let now = scheduled(a, outstanding, room);
    if room == 0 {
        assert(scheduled(a + b, outstanding, room) =~= now + scheduled(
            b,
            outstanding + keys_of(now),
            0,
        ));
    } else if a.len() == 0 {
        assert(a + b =~= b);
        assert(outstanding + keys_of(now) =~= outstanding);
        assert(now + scheduled(b, outstanding, room) =~= scheduled(b, outstanding, room));
    } else {
        let t = a.drop_first();
        assert((a + b).drop_first() =~= t + b);
        assert((a + b).first() == a.first());
        let key = job_key(a.first());
        if outstanding.contains(key) {
            earlier_jobs_are_handed_out_first(t, b, outstanding, room);
        } else {
            let more = outstanding.push(key);
            let left = (room - 1) as nat;
            earlier_jobs_are_handed_out_first(t, b, more, left);
            let rest = scheduled(t, more, left);
            assert(now == seq![a.first()] + rest);
            assert(more + keys_of(rest) =~= outstanding + keys_of(now));
            let behind = scheduled(b, more + keys_of(rest), (left - rest.len()) as nat);
            assert(seq![a.first()] + (rest + behind) =~= now + behind);
        }
    }
}

/// A job that waits alone is handed out exactly where there is room and its pull request is not
/// under way.
pub proof fn a_waiting_job_is_handed_out(job: JobView, outstanding: Seq<KeyView>, room: nat)
    ensures
        room > 0 && !outstanding.contains(job_key(job)) ==> scheduled(
            seq![job],
            outstanding,
            room,
        ) == seq![job],
        room == 0 || outstanding.contains(job_key(job)) ==> scheduled(
            seq![job],
            outstanding,
            room,
        ).len() == 0,
{
    let rest = seq![job].drop_first();
    assert(rest =~= Seq::<JobView>::empty());
    assert(scheduled(rest, outstanding, room).len() == 0);
    assert(scheduled(rest, outstanding.push(job_key(job)), (room - 1) as nat).len() == 0);
    if room > 0 && !outstanding.contains(job_key(job)) {
        assert(scheduled(seq![job], outstanding, room) =~= seq![job]);
    }
}

/// No job is passed over while there is room: where some is left, the pull request of each waiting job
/// is under way, or a job of it is handed out. What is handed out was waiting.
pub proof fn no_job_is_passed_over(
    queued: Seq<JobView>,
    outstanding: Seq<KeyView>,
    room: nat,
    j: JobView,
)
    ensures
        scheduled(queued, outstanding, room).contains(j) ==> queued.contains(j),
        queued.contains(j) && scheduled(queued, outstanding, room).len() < room
            ==> outstanding.contains(job_key(j)) || keys_of(
            scheduled(queued, outstanding, room),
        ).contains(job_key(j)),
    decreases queued.len(),
{
    let now = scheduled(queued, outstanding, room);
    if queued.len() > 0 && room > 0 {
        let t = queued.drop_first();
        let first = queued.first();
        let key = job_key(first);
        if t.contains(j) {
            let k = choose|k: int| 0 <= k < t.len() && t[k] == j;
            assert(queued[k + 1] == j);
        }
        if queued.contains(j) && j != first {
            let k = choose|k: int| 0 <= k < queued.len() && queued[k] == j;
            assert(t[k - 1] == j);
        }
        if outstanding.contains(key) {
            no_job_is_passed_over(t, outstanding, room, j);
        } else {
            let more = outstanding.push(key);
            let left = (room - 1) as nat;
            no_job_is_passed_over(t, more, left, j);
            let rest = scheduled(t, more, left);
            assert(now == seq![first] + rest);
            assert(keys_of(now)[0] == key);
            if now.contains(j) {
                let k = choose|k: int| 0 <= k < now.len() && now[k] == j;
                if k == 0 {
                    assert(queued[0] == j);
                } else {
                    assert(rest[k - 1] == j);
                }
            }
            if more.contains(job_key(j)) && !outstanding.contains(job_key(j)) {
                let k = choose|k: int| 0 <= k < more.len() && more[k] == job_key(j);
                if k < outstanding.len() {
                    assert(outstanding[k] == job_key(j));
                }
                assert(key == job_key(j));
            }
            if keys_of(rest).contains(job_key(j)) {
                let k = choose|k: int|
                    0 <= k < keys_of(rest).len() && keys_of(rest)[k] == job_key(j);
                assert(keys_of(now)[k + 1] == job_key(j));
            }
        }
    }
}

// ---------------------------------------------------------------------------
// Keeping
// ---------------------------------------------------------------------------

proof fn lemma_remove_terminal(jobs: Seq<JobView>, i: int)
    requires
        0 <= i < jobs.len(),
        jobs[i].status.terminal(),
    ensures
        terminal_count(jobs.remove(i)) == terminal_count(jobs) - 1,
    decreases jobs.len(),
{
    let p = |j: JobView| j.status.terminal();
    let t = jobs.drop_last();
    assert(jobs =~= t.push(jobs.last()));
    t.lemma_filter_push(jobs.last(), p);
    if i == jobs.len() - 1 {
        assert(jobs.remove(i) =~= t);
    } else {
        lemma_remove_terminal(t, i);
        assert(t[i] == jobs[i]);
        assert(jobs.remove(i) =~= t.remove(i).push(jobs.last()));
        t.remove(i).lemma_filter_push(jobs.last(), p);
    }
}

/// No more finished jobs are dropped than must be: as many are left as there were, or as the capacity
/// allows.
pub proof fn as_many_finished_jobs_are_kept_as_fit(jobs: Seq<JobView>)
    ensures
        terminal_count(pruned(jobs)) == if terminal_count(jobs) > RECENT_DELIVERY_CAPACITY {
            RECENT_DELIVERY_CAPACITY as nat
        } else {
            terminal_count(jobs)
        },
        terminal_count(jobs) <= RECENT_DELIVERY_CAPACITY ==> pruned(jobs) == jobs,
        pruned(jobs).len() + terminal_count(jobs) == jobs.len() + terminal_count(pruned(jobs)),
    decreases jobs.len(),
{
    lemma_oldest_terminal(jobs, jobs.len() as int);
    match oldest_terminal(jobs, jobs.len() as int) {
        Some(i) => {
            if terminal_count(jobs) > RECENT_DELIVERY_CAPACITY {
                lemma_remove_terminal(jobs, i);
                as_many_finished_jobs_are_kept_as_fit(jobs.remove(i));
            }
        },
        None => {
            lemma_none_finished(jobs);
        },
    }
}

proof fn lemma_none_finished(jobs: Seq<JobView>)
    requires
        forall|k: int| 0 <= k < jobs.len() ==> !(#[trigger] jobs[k]).status.terminal(),
    ensures
        terminal_count(jobs) == 0,
    decreases jobs.len(),
{
    let p = |j: JobView| j.status.terminal();
    if jobs.len() > 0 {
        let t = jobs.drop_last();
        assert forall|k: int| 0 <= k < t.len() implies !(#[trigger] t[k]).status.terminal() by {
            assert(t[k] == jobs[k]);
        }
        lemma_none_finished(t);
        assert(jobs =~= t.push(jobs.last()));
        t.lemma_filter_push(jobs.last(), p);
        assert(!jobs[jobs.len() - 1].status.terminal());
    } else {
        reveal(Seq::filter);
        assert(jobs.filter(p).len() == 0);
    }
}

// ---------------------------------------------------------------------------
// Putting back
// ---------------------------------------------------------------------------

/// The job is one of the first `n` that were given up, and is running.
pub open spec fn given_up(j: JobView, ids: Seq<Seq<char>>, n: int) -> bool {
    j.status == PullRequestJobStatus::Running && ids.take(n).contains(j.delivery_id)
}

proof fn lemma_take_contains(ids: Seq<Seq<char>>, n: int, id: Seq<char>)
    requires
        0 < n <= ids.len(),
    ensures
        ids.take(n).contains(id) <==> ids.take(n - 1).contains(id) || ids[n - 1] == id,
{
    let a = ids.take(n);
    let b = ids.take(n - 1);
    if a.contains(id) {
        let k = choose|k: int| 0 <= k < a.len() && a[k] == id;
        if k < n - 1 {
            assert(b[k] == id);
        }
    }
    if b.contains(id) {
        let k = choose|k: int| 0 <= k < b.len() && b[k] == id;
        assert(a[k] == id);
    }
    if ids[n - 1] == id {
        assert(a[n - 1] == id);
    }
}

/// Every running job that was given up waits again, wherever it stands and whichever others were given
/// up, and every other job stays as it is; each that waits again is handed back.
pub proof fn every_abandoned_job_waits_again(
    jobs: Seq<JobView>,
    ids: Seq<Seq<char>>,
    n: int,
    i: int,
)
    requires
        ids_ascending(jobs),
        0 <= n <= ids.len(),
        0 <= i < jobs.len(),
    ensures
        given_up(jobs[i], ids, n) ==> abandoned_requeued(jobs, ids, n).0[i] == requeued(jobs[i]),
        !given_up(jobs[i], ids, n) ==> abandoned_requeued(jobs, ids, n).0[i] == jobs[i],
        given_up(jobs[i], ids, n) ==> abandoned_requeued(jobs, ids, n).1.contains(
            requeued(jobs[i]),
        ),
    decreases n,
{
    let now = abandoned_requeued(jobs, ids, n);
    if n == 0 {
        assert(ids.take(0) =~= Seq::<Seq<char>>::empty());
    } else {
        every_abandoned_job_waits_again(jobs, ids, n - 1, i);
        requeueing_touches_only_running_jobs(jobs, ids, n - 1, i);
        lemma_take_contains(ids, n, jobs[i].delivery_id);
        let before = abandoned_requeued(jobs, ids, n - 1);
        let js = before.0;
        let id = ids[n - 1];
        assert(js[i].delivery_id == jobs[i].delivery_id);
        lemma_lookup_at(js, i);
        if before.1.contains(requeued(jobs[i])) {
            let k = choose|k: int| 0 <= k < before.1.len() && before.1[k] == requeued(jobs[i]);
            assert(now.1[k] == requeued(jobs[i]));
        }
        if jobs[i].delivery_id == id {
            assert(lookup(js, id) == Some(js[i]));
            if js[i].status == PullRequestJobStatus::Running {
                assert(now.1[before.1.len() as int] == requeued(js[i]));
            }
        }
    }
}

// ---------------------------------------------------------------------------
// Giving way
// ---------------------------------------------------------------------------

/// The job waits, runs or is to be retried.
pub open spec fn is_open(j: JobView) -> bool {
    matches!(
        j.status,
        PullRequestJobStatus::Queued | PullRequestJobStatus::Running
            | PullRequestJobStatus::RetryPending
    )
}

/// The delivery is about the pull request of the job.
pub open spec fn same_pull_request(j: JobView, input: PullRequestJobInput) -> bool {
    j.repository == input.repository@ && j.pull_request == input.pull_request
}

/// Every open job of the same pull request gives way to a new delivery, wherever it stands, and no
/// other job changes; what gives way keeps all but its status and the reason it is given.
pub proof fn open_jobs_give_way(jobs: Seq<JobView>, input: PullRequestJobInput, i: int)
    requires
        0 <= i < jobs.len(),
    ensures
        superseding(jobs, input).len() == jobs.len(),
        is_open(jobs[i]) && same_pull_request(jobs[i], input) ==> superseding(jobs, input)[i] == (
        JobView {
            status: PullRequestJobStatus::CancellationPending,
            terminal_error: superseding(jobs, input)[i].terminal_error,
            ..jobs[i]
        }) && superseding(jobs, input)[i].terminal_error == Some(
            "superseded by newer delivery "@ + input.delivery_id@,
        ),
        !(is_open(jobs[i]) && same_pull_request(jobs[i], input)) ==> superseding(jobs, input)[i]
            == jobs[i],
{
}

/// The jobs that give way are all named, in their order: those of two lists are those of the first and
/// then those of the second.
pub proof fn jobs_that_give_way_are_all_named(
    jobs: Seq<JobView>,
    j: JobView,
    input: PullRequestJobInput,
)
    ensures
        is_open(j) && same_pull_request(j, input) ==> displaced_jobs(jobs.push(j), input)
            == displaced_jobs(jobs, input).push(
            JobView {
                status: PullRequestJobStatus::CancellationPending,
                terminal_error: Some("superseded by newer delivery "@ + input.delivery_id@),
                ..j
            },
        ),
        !(is_open(j) && same_pull_request(j, input)) ==> displaced_jobs(jobs.push(j), input)
            == displaced_jobs(jobs, input),
        displaced_jobs(Seq::empty(), input).len() == 0,
{
    let p = crate::github_app::pull_request_job_store::displaces(input);
    let g = crate::github_app::pull_request_job_store::displacement(input);
    jobs.lemma_filter_push(j, p);
    if p(j) {
        assert(jobs.filter(p).push(j).map_values(g) =~= jobs.filter(p).map_values(g).push(g(j)));
    }
    let none = Seq::<JobView>::empty();
    assert(none.filter(p).len() == 0) by {
        reveal(Seq::filter);
    }
}

/// A new job waits, is of what the delivery names, and has not been tried.
pub proof fn new_jobs_are_those_of_their_delivery(input: PullRequestJobInput, number: u64)
    ensures
        ({
            let j = new_job(input, number);
            &&& j.delivery_id == input.delivery_id@
            &&& j.sequence == number
            &&& same_pull_request(j, input)
            &&& j.head_sha == input.head_sha@
            &&& j.clone_url == input.clone_url@
            &&& j.installation_id == input.installation_id
            &&& j.status is Queued
            &&& j.attempts == 0
            &&& j.check_run_id is None
            &&& j.retry_not_before_unix_ms is None
        }),
{
}

// ---------------------------------------------------------------------------
// Waiting again
// ---------------------------------------------------------------------------

/// Every job that is to be retried and whose time has come, or that has none, waits again; all other
/// jobs stay as they are.
pub proof fn retries_wait_again_when_their_time_has_come(
    jobs: Seq<JobView>,
    now_unix_ms: u64,
    i: int,
)
    requires
        0 <= i < jobs.len(),
    ensures
        retries_requeued(jobs, now_unix_ms).len() == jobs.len(),
        jobs[i].status is RetryPending && (jobs[i].retry_not_before_unix_ms is None
            || jobs[i].retry_not_before_unix_ms.unwrap() <= now_unix_ms) ==> retries_requeued(
            jobs,
            now_unix_ms,
        )[i] == (JobView {
            status: PullRequestJobStatus::Queued,
            retry_not_before_unix_ms: None,
            ..jobs[i]
        }),
        !(jobs[i].status is RetryPending && (jobs[i].retry_not_before_unix_ms is None
            || jobs[i].retry_not_before_unix_ms.unwrap() <= now_unix_ms)) ==> retries_requeued(
            jobs,
            now_unix_ms,
        )[i] == jobs[i],
{
}

/// After a restart the newest open job of each pull request waits, whether it waited, ran or was to be
/// retried before; a finished job stays as it is, and so does one that is being cancelled.
pub proof fn restarts_keep_the_newest_job(jobs: Seq<JobView>, i: int)
    requires
        0 <= i < jobs.len(),
    ensures
        recovering(jobs).len() == jobs.len(),
        !is_open(jobs[i]) ==> recovering(jobs)[i] == jobs[i],
        is_open(jobs[i]) && (forall|k: int|
            0 <= k < jobs.len() && k != i && is_open(#[trigger] jobs[k]) && jobs[k].repository
                == jobs[i].repository && jobs[k].pull_request == jobs[i].pull_request
                ==> jobs[k].sequence < jobs[i].sequence) ==> recovering(jobs)[i].status is Queued
            && recovering(jobs)[i].delivery_id == jobs[i].delivery_id && recovering(
            jobs,
        )[i].attempts == jobs[i].attempts,
        is_open(jobs[i]) && (exists|k: int|
            0 <= k < jobs.len() && k != i && is_open(#[trigger] jobs[k]) && jobs[k].repository
                == jobs[i].repository && jobs[k].pull_request == jobs[i].pull_request
                && jobs[k].sequence > jobs[i].sequence) ==> recovering(
            jobs,
        )[i].status is CancellationPending,
{
    let w = interrupted_requeued(jobs);
    assert forall|k: int| 0 <= k < jobs.len() implies (w[k].status is Queued) == is_open(
        #[trigger] jobs[k],
    ) && w[k].repository == jobs[k].repository && w[k].pull_request == jobs[k].pull_request
        && w[k].sequence == jobs[k].sequence by {}
    if is_open(jobs[i]) {
        if forall|k: int|
            0 <= k < jobs.len() && k != i && is_open(#[trigger] jobs[k]) && jobs[k].repository
                == jobs[i].repository && jobs[k].pull_request == jobs[i].pull_request
                ==> jobs[k].sequence < jobs[i].sequence {
            assert(newest(w, i)) by {
                assert forall|k: int|
                    0 <= k < w.len() && k != i && #[trigger] rivals(w, i, k) implies w[k].sequence
                    < w[i].sequence || (w[k].sequence == w[i].sequence && i < k) by {
                    assert(is_open(jobs[k]));
                }
            }
        }
        if exists|k: int|
            0 <= k < jobs.len() && k != i && is_open(#[trigger] jobs[k]) && jobs[k].repository
                == jobs[i].repository && jobs[k].pull_request == jobs[i].pull_request
                && jobs[k].sequence > jobs[i].sequence {
            let k = choose|k: int|
                0 <= k < jobs.len() && k != i && is_open(#[trigger] jobs[k]) && jobs[k].repository
                    == jobs[i].repository && jobs[k].pull_request == jobs[i].pull_request
                    && jobs[k].sequence > jobs[i].sequence;
            assert(rivals(w, i, k));
            assert(!newest(w, i));
        }
    }
}

/// A worker that takes a job counts the attempt and leaves the rest of the job as it is.
pub proof fn taking_a_job_counts_an_attempt(j: JobView)
    requires
        j.attempts < u32::MAX,
    ensures
        started(j).attempts == j.attempts + 1,
        started(j).status is Running,
        started(j).repository == j.repository && started(j).pull_request == j.pull_request
            && started(j).head_sha == j.head_sha && started(j).check_run_id == j.check_run_id
            && started(j).check_run_creation == j.check_run_creation,
{
}

} // verus!
