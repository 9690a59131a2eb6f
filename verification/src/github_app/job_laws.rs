//! What holds of the job registry across its transitions.

use crate::github_app::pull_request_job_store::{
    abandoned_requeued, acceptance, accepting, attached, backoff_millis, by_id, by_sequence,
    cancelling, committed, deferred, displaced, displaces, doubled, finished,
    ids_ascending, interrupted, interrupted_requeued, lemma_insert_ascending, lemma_lookup,
    lemma_lookup_at, lemma_no_terminal, lemma_oldest_terminal, lemma_remove_ascending,
    lemma_same_ids_ascending, lookup, new_job, newest, newest_kept, older, oldest_terminal, pruned,
    recovering, requeued, retries_requeued, rivals, started, superseding, terminal_count, text_lt,
    with_creation, with_job, with_status, CheckRunCreationState, JobView, PersistOutcome,
    PullRequestJobAdmission, PullRequestJobInput, PullRequestJobRegistry, PullRequestJobStatus,
    PullRequestJobStore, PullRequestJobStoreError, RegistryView, StoreStep,
    RECENT_DELIVERY_CAPACITY,
};
use crate::sort::{ascending, insert_stable, sorting_orders_and_permutes};
use crate::text::{lemma_text_le_total, lemma_text_le_transitive, text_le};
use vstd::prelude::*;

verus! {

// ---------------------------------------------------------------------------
// Dropping finished jobs
// ---------------------------------------------------------------------------

proof fn lemma_older_transitive(a: JobView, b: JobView, c: JobView)
    requires
        older(a, b),
        older(b, c),
    ensures
        older(a, c),
{
    if a.sequence == b.sequence && b.sequence == c.sequence {
        lemma_text_le_transitive(a.delivery_id, b.delivery_id, c.delivery_id);
        lemma_text_le_total(a.delivery_id, b.delivery_id);
    }
}

proof fn lemma_oldest_is_oldest(jobs: Seq<JobView>, n: int)
    requires
        0 <= n <= jobs.len(),
        ids_ascending(jobs),
    ensures
        oldest_terminal(jobs, n) matches Some(i) ==> 0 <= i < n && jobs[i].status.terminal()
            && forall|k: int|
            0 <= k < n && k != i && (#[trigger] jobs[k]).status.terminal() ==> older(
                jobs[i],
                jobs[k],
            ),
    decreases n,
{
    lemma_oldest_terminal(jobs, n);
    if n > 0 {
        lemma_oldest_is_oldest(jobs, n - 1);
        lemma_oldest_terminal(jobs, n - 1);
        if let Some(i) = oldest_terminal(jobs, n) {
            assert forall|k: int|
                0 <= k < n && k != i && (#[trigger] jobs[k]).status.terminal() implies older(
                jobs[i],
                jobs[k],
            ) by {
                match oldest_terminal(jobs, n - 1) {
                    Some(e) => {
                        if i == n - 1 && k != e {
                            lemma_older_transitive(jobs[i], jobs[e], jobs[k]);
                        } else if i == e && k == n - 1 {
                            assert(text_lt(jobs[e].delivery_id, jobs[k].delivery_id));
                        }
                    },
                    None => {},
                }
            }
        }
    }
}

/// Dropping finished jobs drops none that is open, leaves no more finished ones than the capacity,
/// keeps the order, and drops only jobs that were accepted before every finished job it keeps.
pub proof fn pruning_drops_only_the_oldest_finished(jobs: Seq<JobView>)
    requires
        ids_ascending(jobs),
    ensures
        ids_ascending(pruned(jobs)),
        terminal_count(pruned(jobs)) <= RECENT_DELIVERY_CAPACITY,
        forall|j: JobView| pruned(jobs).contains(j) ==> #[trigger] jobs.contains(j),
        forall|j: JobView|
            #[trigger] jobs.contains(j) && !pruned(jobs).contains(j) ==> j.status.terminal(),
        forall|j: JobView, k: JobView|
            #[trigger] jobs.contains(j) && !pruned(jobs).contains(j) && #[trigger] pruned(
                jobs,
            ).contains(k) && k.status.terminal() ==> older(j, k),
    decreases jobs.len(),
{
    lemma_oldest_terminal(jobs, jobs.len() as int);
    lemma_oldest_is_oldest(jobs, jobs.len() as int);
    match oldest_terminal(jobs, jobs.len() as int) {
        Some(i) => {
            if terminal_count(jobs) > RECENT_DELIVERY_CAPACITY {
                let rest = jobs.remove(i);
                lemma_remove_ascending(jobs, i);
                pruning_drops_only_the_oldest_finished(rest);
                assert forall|j: JobView| pruned(jobs).contains(j) implies #[trigger] jobs.contains(
                    j,
                ) by {
                    assert(rest.contains(j));
                    let k = choose|k: int| 0 <= k < rest.len() && rest[k] == j;
                    assert(jobs[if k < i { k } else { k + 1 }] == j);
                }
                assert forall|j: JobView| #[trigger] jobs.contains(j) implies j == jobs[i]
                    || rest.contains(j) by {
                    let k = choose|k: int| 0 <= k < jobs.len() && jobs[k] == j;
                    if k != i {
                        assert(rest[if k < i { k } else { k - 1 }] == j);
                    }
                }
                assert forall|j: JobView, k: JobView|
                    #[trigger] jobs.contains(j) && !pruned(jobs).contains(j) && #[trigger] pruned(
                        jobs,
                    ).contains(k) && k.status.terminal() implies older(j, k) by {
                    assert(rest.contains(k));
                    if !rest.contains(j) {
                        let p = choose|p: int| 0 <= p < rest.len() && rest[p] == k;
                        let q = if p < i { p } else { p + 1 };
                        assert(jobs[q] == k && q != i);
                    }
                }
            }
        },
        None => {
            lemma_no_terminal(jobs);
        },
    }
}

// ---------------------------------------------------------------------------
// Recognising deliveries
// ---------------------------------------------------------------------------

proof fn lemma_insert_position(jobs: Seq<JobView>, x: JobView) -> (at: int)
    requires
        ids_ascending(jobs),
        forall|i: int| 0 <= i < jobs.len() ==> (#[trigger] jobs[i]).delivery_id != x.delivery_id,
    ensures
        0 <= at <= jobs.len(),
        insert_stable(jobs, x, by_id()) == jobs.insert(at, x),
        ids_ascending(jobs.insert(at, x)),
{
    lemma_insert_position_below(jobs, x, jobs.len() as int)
}

proof fn lemma_insert_position_below(jobs: Seq<JobView>, x: JobView, n: int) -> (at: int)
    requires
        ids_ascending(jobs),
        0 <= n <= jobs.len(),
        n == jobs.len() || !text_le(jobs[n].delivery_id, x.delivery_id),
        forall|i: int| 0 <= i < jobs.len() ==> (#[trigger] jobs[i]).delivery_id != x.delivery_id,
    ensures
        0 <= at <= jobs.len(),
        insert_stable(jobs, x, by_id()) == jobs.insert(at, x),
        ids_ascending(jobs.insert(at, x)),
    decreases n,
{
    if n == 0 || text_le(jobs[n - 1].delivery_id, x.delivery_id) {
        lemma_insert_ascending(jobs, x, n);
        n
    } else {
        lemma_insert_position_below(jobs, x, n - 1)
    }
}

/// The registry stays ordered by delivery id when a delivery is accepted, and every job in it
/// afterwards is the new one or what a former one became.
pub proof fn accepting_keeps_order(registry: RegistryView, input: PullRequestJobInput)
    requires
        ids_ascending(registry.jobs),
        lookup(registry.jobs, input.delivery_id@) is None,
    ensures
        ids_ascending(accepting(registry, input).jobs),
        accepting(registry, input).jobs.contains(new_job(input, registry.next_sequence)),
        forall|j: JobView| #[trigger]
            accepting(registry, input).jobs.contains(j) ==> j == new_job(
                input,
                registry.next_sequence,
            ) || superseding(registry.jobs, input).contains(j),
{
    let middle = superseding(registry.jobs, input);
    let x = new_job(input, registry.next_sequence);
    lemma_same_ids_ascending(registry.jobs, middle);
    lemma_lookup(registry.jobs, input.delivery_id@);
    assert forall|i: int| 0 <= i < middle.len() implies (#[trigger] middle[i]).delivery_id
        != x.delivery_id by {
        assert(middle[i].delivery_id == registry.jobs[i].delivery_id);
    }
    let at = lemma_insert_position(middle, x);
    let all = middle.insert(at, x);
    pruning_drops_only_the_oldest_finished(all);
    assert(all[at] == x);
    assert(all.contains(x));
    assert forall|j: JobView| #[trigger] pruned(all).contains(j) implies j == x || middle.contains(
        j,
    ) by {
        assert(all.contains(j));
        let k = choose|k: int| 0 <= k < all.len() && all[k] == j;
        if k != at {
            assert(middle[if k < at { k } else { k - 1 }] == j);
        }
    }
}

/// A delivery that was accepted is found afterwards, so that delivering it again changes nothing.
pub proof fn accepted_delivery_is_known(registry: RegistryView, input: PullRequestJobInput)
    requires
        ids_ascending(registry.jobs),
        lookup(registry.jobs, input.delivery_id@) is None,
    ensures
        lookup(accepting(registry, input).jobs, input.delivery_id@) == Some(
            new_job(input, registry.next_sequence),
        ),
{
    accepting_keeps_order(registry, input);
    let jobs = accepting(registry, input).jobs;
    let x = new_job(input, registry.next_sequence);
    let i = choose|i: int| 0 <= i < jobs.len() && jobs[i] == x;
    lemma_lookup_at(jobs, i);
}

// ---------------------------------------------------------------------------
// One active job for each pull request
// ---------------------------------------------------------------------------

/// No two jobs that a worker has or will have work on the same pull request.
pub open spec fn one_active_each(jobs: Seq<JobView>) -> bool {
    forall|i: int, k: int|
        0 <= i < jobs.len() && 0 <= k < jobs.len() && (#[trigger] jobs[i]).status.active()
            && (#[trigger] jobs[k]).status.active() && jobs[i].concerns(
            jobs[k].repository,
            jobs[k].pull_request,
        ) ==> i == k
}

proof fn lemma_one_active_after(a: Seq<JobView>, b: Seq<JobView>)
    requires
        one_active_each(a),
        a.len() == b.len(),
        forall|i: int|
            0 <= i < a.len() ==> ((#[trigger] b[i]).status.active() ==> a[i].status.active())
                && b[i].concerns(a[i].repository, a[i].pull_request),
    ensures
        one_active_each(b),
{
    assert forall|i: int, k: int|
        0 <= i < b.len() && 0 <= k < b.len() && (#[trigger] b[i]).status.active()
            && (#[trigger] b[k]).status.active() && b[i].concerns(
            b[k].repository,
            b[k].pull_request,
        ) implies i == k by {
        assert(a[i].status.active() && a[k].status.active());
    }
}

proof fn lemma_one_active_pruned(jobs: Seq<JobView>)
    requires
        one_active_each(jobs),
    ensures
        one_active_each(pruned(jobs)),
    decreases jobs.len(),
{
    match oldest_terminal(jobs, jobs.len() as int) {
        Some(i) => {
            if terminal_count(jobs) > RECENT_DELIVERY_CAPACITY && 0 <= i < jobs.len() {
                let rest = jobs.remove(i);
                assert forall|m: int, k: int|
                    0 <= m < rest.len() && 0 <= k < rest.len() && (#[trigger] rest[m]).status.active()
                        && (#[trigger] rest[k]).status.active() && rest[m].concerns(
                        rest[k].repository,
                        rest[k].pull_request,
                    ) implies m == k by {
                    let a = if m < i { m } else { m + 1 };
                    let b = if k < i { k } else { k + 1 };
                    assert(jobs[a] == rest[m] && jobs[b] == rest[k]);
                }
                lemma_one_active_pruned(rest);
            }
        },
        None => {},
    }
}

/// Accepting a delivery leaves at most one active job for each pull request.
pub proof fn accepting_keeps_one_active_each(registry: RegistryView, input: PullRequestJobInput)
    requires
        ids_ascending(registry.jobs),
        lookup(registry.jobs, input.delivery_id@) is None,
        one_active_each(registry.jobs),
    ensures
        one_active_each(accepting(registry, input).jobs),
{
    let middle = superseding(registry.jobs, input);
    let x = new_job(input, registry.next_sequence);
    lemma_one_active_after(registry.jobs, middle);
    lemma_same_ids_ascending(registry.jobs, middle);
    lemma_lookup(registry.jobs, input.delivery_id@);
    assert forall|i: int| 0 <= i < middle.len() implies (#[trigger] middle[i]).delivery_id
        != x.delivery_id by {
        assert(middle[i].delivery_id == registry.jobs[i].delivery_id);
    }
    let at = lemma_insert_position(middle, x);
    let all = middle.insert(at, x);
    assert forall|i: int, k: int|
        0 <= i < all.len() && 0 <= k < all.len() && (#[trigger] all[i]).status.active()
            && (#[trigger] all[k]).status.active() && all[i].concerns(
            all[k].repository,
            all[k].pull_request,
        ) implies i == k by {
        let a = if i < at { i } else { i - 1 };
        let b = if k < at { k } else { k - 1 };
        if i != at {
            assert(all[i] == middle[a]);
            assert(!displaces(input)(registry.jobs[a]) || !middle[a].status.active());
        }
        if k != at {
            assert(all[k] == middle[b]);
            assert(!displaces(input)(registry.jobs[b]) || !middle[b].status.active());
        }
    }
    lemma_one_active_pruned(all);
}

/// Whatever was stored, a restart leaves at most one active job for each pull request, and none
/// that is still marked as with a worker.
pub proof fn recovery_leaves_one_active_each(jobs: Seq<JobView>)
    ensures
        one_active_each(pruned(recovering(jobs))),
        one_active_each(recovering(jobs)),
        forall|i: int| 0 <= i < jobs.len() ==> !interrupted(#[trigger] recovering(jobs)[i]),
{
    let w = interrupted_requeued(jobs);
    let r = recovering(jobs);
    assert forall|i: int, k: int|
        0 <= i < r.len() && 0 <= k < r.len() && (#[trigger] r[i]).status.active() && (
        #[trigger] r[k]).status.active() && r[i].concerns(
            r[k].repository,
            r[k].pull_request,
        ) implies i == k by {
        assert(w[i].status.active() && !interrupted(w[i]));
        assert(w[k].status.active() && !interrupted(w[k]));
        assert(newest(w, i) && newest(w, k));
        assert(rivals(w, i, k) && rivals(w, k, i));
    }
    lemma_one_active_pruned(r);
}

/// A second restart finds nothing to change.
pub proof fn recovery_is_idempotent(jobs: Seq<JobView>)
    ensures
        recovering(recovering(jobs)) == recovering(jobs),
{
    let r = recovering(jobs);
    recovery_leaves_one_active_each(jobs);
    assert(interrupted_requeued(r) =~= r);
    assert forall|i: int| 0 <= i < r.len() && r[i].status == PullRequestJobStatus::Queued implies newest(
        r,
        i,
    ) by {
        assert forall|k: int|
            0 <= k < r.len() && k != i && #[trigger] rivals(r, i, k) implies r[k].sequence
            < r[i].sequence || (r[k].sequence == r[i].sequence && i < k) by {
            assert(r[i].status.active() && r[k].status.active());
        }
    }
    assert(newest_kept(r) =~= r);
}

/// Waiting again after a retry or an abandoned run leaves at most one active job for each pull
/// request.
pub proof fn requeueing_keeps_one_active_each(
    jobs: Seq<JobView>,
    now_unix_ms: u64,
    ids: Seq<Seq<char>>,
    n: int,
)
    requires
        ids_ascending(jobs),
        one_active_each(jobs),
        0 <= n <= ids.len(),
    ensures
        one_active_each(retries_requeued(jobs, now_unix_ms)),
        one_active_each(abandoned_requeued(jobs, ids, n).0),
        ids_ascending(abandoned_requeued(jobs, ids, n).0),
    decreases n,
{
    lemma_one_active_after(jobs, retries_requeued(jobs, now_unix_ms));
    if n > 0 {
        requeueing_keeps_one_active_each(jobs, now_unix_ms, ids, n - 1);
        let js = abandoned_requeued(jobs, ids, n - 1).0;
        let id = ids[n - 1];
        if lookup(js, id) matches Some(j) && j.status == PullRequestJobStatus::Running {
            lemma_lookup(js, id);
            let f = |x: JobView| requeued(x);
            let after = with_job(js, id, f);
            assert forall|i: int| 0 <= i < js.len() implies ((
            #[trigger] after[i]).status.active() ==> js[i].status.active()) && after[i].concerns(
                js[i].repository,
                js[i].pull_request,
            ) by {
                if js[i].delivery_id == id {
                    lemma_lookup_at(js, i);
                }
            }
            lemma_one_active_after(js, after);
            lemma_same_ids_ascending(js, after);
        }
    }
}

/// A change of one job that makes no finished or cancelled job active again, and does not move it
/// to another pull request, leaves at most one active job for each pull request.
pub proof fn one_job_change_keeps_one_active_each(
    jobs: Seq<JobView>,
    id: Seq<char>,
    f: spec_fn(JobView) -> JobView,
)
    requires
        one_active_each(jobs),
        forall|j: JobView|
            #![trigger f(j)]
            jobs.contains(j) && j.delivery_id == id ==> (f(j).status.active() ==> j.status.active())
                && f(j).concerns(j.repository, j.pull_request),
    ensures
        one_active_each(with_job(jobs, id, f)),
        one_active_each(pruned(with_job(jobs, id, f))),
{
    let after = with_job(jobs, id, f);
    assert forall|i: int| 0 <= i < jobs.len() implies ((#[trigger] after[i]).status.active()
        ==> jobs[i].status.active()) && after[i].concerns(
        jobs[i].repository,
        jobs[i].pull_request,
    ) by {
        assert(jobs.contains(jobs[i]));
        assert(f(jobs[i]) == f(jobs[i]));
    }
    lemma_one_active_after(jobs, after);
    lemma_one_active_pruned(after);
}

// ---------------------------------------------------------------------------
// Finished jobs
// ---------------------------------------------------------------------------

/// Nothing that happens to other jobs changes a finished one: accepting a delivery, a restart, and
/// requeueing leave it as it is.
pub proof fn finished_jobs_never_change(
    jobs: Seq<JobView>,
    input: PullRequestJobInput,
    now_unix_ms: u64,
    i: int,
)
    requires
        0 <= i < jobs.len(),
        jobs[i].status.terminal(),
    ensures
        superseding(jobs, input)[i] == jobs[i],
        recovering(jobs)[i] == jobs[i],
        retries_requeued(jobs, now_unix_ms)[i] == jobs[i],
{
    assert(interrupted_requeued(jobs)[i] == jobs[i]);
}

/// Abandoned runs that wait again leave every job as it is that was not running.
pub proof fn requeueing_touches_only_running_jobs(
    jobs: Seq<JobView>,
    ids: Seq<Seq<char>>,
    n: int,
    i: int,
)
    requires
        ids_ascending(jobs),
        0 <= n <= ids.len(),
        0 <= i < jobs.len(),
    ensures
        abandoned_requeued(jobs, ids, n).0.len() == jobs.len(),
        ids_ascending(abandoned_requeued(jobs, ids, n).0),
        abandoned_requeued(jobs, ids, n).0[i] == jobs[i] || (jobs[i].status
            == PullRequestJobStatus::Running && abandoned_requeued(jobs, ids, n).0[i] == requeued(
            jobs[i],
        )),
    decreases n,
{
    if n > 0 {
        requeueing_touches_only_running_jobs(jobs, ids, n - 1, i);
        let js = abandoned_requeued(jobs, ids, n - 1).0;
        let id = ids[n - 1];
        if lookup(js, id) matches Some(j) && j.status == PullRequestJobStatus::Running {
            lemma_lookup(js, id);
            let after = with_job(js, id, |x: JobView| requeued(x));
            lemma_same_ids_ascending(js, after);
            if js[i].delivery_id == id {
                lemma_lookup_at(js, i);
            }
        }
    }
}

// ---------------------------------------------------------------------------
// The order of acceptance
// ---------------------------------------------------------------------------

/// No two jobs have the same number, and the next number is above all of them.
pub open spec fn in_sequence(registry: RegistryView) -> bool {
    &&& forall|i: int, k: int|
        0 <= i < k < registry.jobs.len() ==> (#[trigger] registry.jobs[i]).sequence != (
        #[trigger] registry.jobs[k]).sequence
    &&& forall|i: int|
        0 <= i < registry.jobs.len() ==> (#[trigger] registry.jobs[i]).sequence
            < registry.next_sequence
}

/// The registry with other jobs.
pub open spec fn holding(registry: RegistryView, jobs: Seq<JobView>) -> RegistryView {
    RegistryView { jobs, ..registry }
}

proof fn lemma_same_sequences(registry: RegistryView, jobs: Seq<JobView>)
    requires
        in_sequence(registry),
        jobs.len() == registry.jobs.len(),
        forall|i: int|
            0 <= i < jobs.len() ==> (#[trigger] jobs[i]).sequence == registry.jobs[i].sequence,
    ensures
        in_sequence(holding(registry, jobs)),
{
    let after = holding(registry, jobs);
    assert forall|i: int, k: int| 0 <= i < k < after.jobs.len() implies (
    #[trigger] after.jobs[i]).sequence != (#[trigger] after.jobs[k]).sequence by {
        assert(registry.jobs[i].sequence != registry.jobs[k].sequence);
    }
    assert forall|i: int| 0 <= i < after.jobs.len() implies (#[trigger] after.jobs[i]).sequence
        < after.next_sequence by {
        assert(registry.jobs[i].sequence < registry.next_sequence);
    }
}

proof fn lemma_pruned_sequences(registry: RegistryView)
    requires
        in_sequence(registry),
    ensures
        in_sequence(holding(registry, pruned(registry.jobs))),
    decreases registry.jobs.len(),
{
    let jobs = registry.jobs;
    match oldest_terminal(jobs, jobs.len() as int) {
        Some(i) => {
            if terminal_count(jobs) > RECENT_DELIVERY_CAPACITY && 0 <= i < jobs.len() {
                let rest = jobs.remove(i);
                let next = holding(registry, rest);
                assert forall|m: int, k: int| 0 <= m < k < rest.len() implies (
                #[trigger] next.jobs[m]).sequence != (#[trigger] next.jobs[k]).sequence by {
                    let a = if m < i { m } else { m + 1 };
                    let b = if k < i { k } else { k + 1 };
                    assert(jobs[a] == rest[m] && jobs[b] == rest[k]);
                }
                assert forall|m: int| 0 <= m < rest.len() implies (
                #[trigger] next.jobs[m]).sequence < next.next_sequence by {
                    assert(jobs[if m < i { m } else { m + 1 }] == rest[m]);
                }
                lemma_pruned_sequences(next);
                assert(holding(next, pruned(rest)) == holding(registry, pruned(jobs)));
            } else {
                assert(holding(registry, jobs) == registry);
            }
        },
        None => {
            assert(holding(registry, jobs) == registry);
        },
    }
}

/// A registry begins with its jobs numbered apart, below the next number, and accepting a delivery
/// keeps it so: the new job gets a number above all others.
pub proof fn accepting_numbers_jobs_in_turn(
    registry: RegistryView,
    input: PullRequestJobInput,
    schema_version: u32,
)
    requires
        ids_ascending(registry.jobs),
        in_sequence(registry),
        lookup(registry.jobs, input.delivery_id@) is None,
        registry.next_sequence < u64::MAX,
    ensures
        in_sequence(RegistryView { schema_version, next_sequence: 1, jobs: Seq::empty() }),
        in_sequence(accepting(registry, input)),
        forall|j: JobView|
            registry.jobs.contains(j) ==> (#[trigger] j.sequence) < new_job(
                input,
                registry.next_sequence,
            ).sequence,
{
    let middle = superseding(registry.jobs, input);
    let x = new_job(input, registry.next_sequence);
    lemma_same_ids_ascending(registry.jobs, middle);
    lemma_lookup(registry.jobs, input.delivery_id@);
    assert forall|i: int| 0 <= i < middle.len() implies (#[trigger] middle[i]).delivery_id
        != x.delivery_id by {
        assert(middle[i].delivery_id == registry.jobs[i].delivery_id);
    }
    lemma_same_sequences(registry, middle);
    let at = lemma_insert_position(middle, x);
    let all = middle.insert(at, x);
    let before = holding(registry, middle);
    let next = RegistryView {
        next_sequence: (registry.next_sequence + 1) as u64,
        jobs: all,
        ..registry
    };
    assert forall|i: int, k: int| 0 <= i < k < all.len() implies (#[trigger] next.jobs[i]).sequence
        != (#[trigger] next.jobs[k]).sequence by {
        let a = if i < at { i } else { i - 1 };
        let b = if k < at { k } else { k - 1 };
        if i != at {
            assert(all[i] == before.jobs[a]);
        }
        if k != at {
            assert(all[k] == before.jobs[b]);
        }
    }
    assert forall|i: int| 0 <= i < all.len() implies (#[trigger] next.jobs[i]).sequence
        < next.next_sequence by {
        if i != at {
            assert(all[i] == before.jobs[if i < at { i } else { i - 1 }]);
        }
    }
    lemma_pruned_sequences(next);
    assert(holding(next, pruned(all)) == accepting(registry, input));
}

/// No other transition changes the number of a job: a restart, requeueing, and every change of one
/// job keep them apart and below the next one.
pub proof fn transitions_keep_numbers(
    registry: RegistryView,
    now_unix_ms: u64,
    ids: Seq<Seq<char>>,
    n: int,
    id: Seq<char>,
    f: spec_fn(JobView) -> JobView,
)
    requires
        ids_ascending(registry.jobs),
        in_sequence(registry),
        0 <= n <= ids.len(),
        forall|j: JobView| (#[trigger] f(j)).sequence == j.sequence,
    ensures
        in_sequence(holding(registry, recovering(registry.jobs))),
        in_sequence(holding(registry, pruned(recovering(registry.jobs)))),
        in_sequence(holding(registry, retries_requeued(registry.jobs, now_unix_ms))),
        in_sequence(holding(registry, abandoned_requeued(registry.jobs, ids, n).0)),
        in_sequence(holding(registry, with_job(registry.jobs, id, f))),
        in_sequence(holding(registry, pruned(with_job(registry.jobs, id, f)))),
{
    let jobs = registry.jobs;
    lemma_same_sequences(registry, recovering(jobs));
    lemma_pruned_sequences(holding(registry, recovering(jobs)));
    lemma_same_sequences(registry, retries_requeued(jobs, now_unix_ms));
    let requeued_jobs = abandoned_requeued(jobs, ids, n).0;
    if jobs.len() > 0 {
        requeueing_touches_only_running_jobs(jobs, ids, n, 0);
    } else {
        lemma_none_requeued(jobs, ids, n);
    }
    assert forall|i: int| 0 <= i < jobs.len() implies (#[trigger] requeued_jobs[i]).sequence
        == jobs[i].sequence by {
        requeueing_touches_only_running_jobs(jobs, ids, n, i);
    }
    lemma_same_sequences(registry, requeued_jobs);
    let changed = with_job(jobs, id, f);
    assert forall|i: int| 0 <= i < jobs.len() implies (#[trigger] changed[i]).sequence
        == jobs[i].sequence by {
        assert(f(jobs[i]).sequence == jobs[i].sequence);
    }
    lemma_same_sequences(registry, changed);
    lemma_pruned_sequences(holding(registry, changed));
}

proof fn lemma_none_requeued(jobs: Seq<JobView>, ids: Seq<Seq<char>>, n: int)
    requires
        jobs.len() == 0,
        0 <= n <= ids.len(),
    ensures
        abandoned_requeued(jobs, ids, n).0.len() == 0,
    decreases n,
{
    if n > 0 {
        lemma_none_requeued(jobs, ids, n - 1);
    }
}

/// Each change that a worker, a check run or a cancellation makes to a job keeps its number and its
/// delivery.
pub proof fn changes_keep_number_and_delivery(
    j: JobView,
    state: CheckRunCreationState,
    check_run_id: u64,
    status: PullRequestJobStatus,
    finding_count: Option<usize>,
    terminal_error: Option<Seq<char>>,
    reason: Seq<char>,
    now_unix_ms: u64,
)
    ensures
        forall|changed: JobView|
            changed == requeued(j) || changed == started(j) || changed == with_creation(j, state)
                || changed == attached(j, check_run_id) || changed == finished(
                j,
                status,
                finding_count,
                terminal_error,
            ) || changed == deferred(j, status, reason, now_unix_ms) || changed == cancelling(
                j,
                reason,
            ) || changed == displaced(j, reason) ==> (#[trigger] changed.sequence) == j.sequence
                && changed.delivery_id == j.delivery_id,
{
}

proof fn lemma_with_status(jobs: Seq<JobView>, status: PullRequestJobStatus)
    ensures
        forall|j: JobView|
            #[trigger] with_status(jobs, status).contains(j) <==> jobs.contains(j) && j.status
                == status,
        ascending(with_status(jobs, status), by_sequence()),
{
    broadcast use vstd::seq_lib::group_to_multiset_ensures;
    broadcast use vstd::seq_lib::group_filter_ensures;

    let p = |j: JobView| j.status == status;
    let chosen = jobs.filter(p);
    let sorted = with_status(jobs, status);
    sorting_orders_and_permutes(chosen, by_sequence());
    assert forall|j: JobView| #[trigger] sorted.contains(j) <==> jobs.contains(j) && j.status
        == status by {
        assert(sorted.contains(j) <==> sorted.to_multiset().count(j) > 0);
        assert(chosen.contains(j) <==> chosen.to_multiset().count(j) > 0);
        if chosen.contains(j) {
            let k = choose|k: int| 0 <= k < chosen.len() && chosen[k] == j;
            jobs.lemma_filter_pred(p, k);
            jobs.lemma_filter_contains_rev(p, j);
        }
        if jobs.contains(j) && p(j) {
            let k = choose|k: int| 0 <= k < jobs.len() && jobs[k] == j;
            jobs.lemma_filter_contains(p, k);
        }
    }
}

proof fn lemma_numbers_ascend(registry: RegistryView, status: PullRequestJobStatus)
    requires
        in_sequence(registry),
    ensures
        numbers_ascend(with_status(registry.jobs, status)),
{
    broadcast use vstd::seq_lib::group_to_multiset_ensures;

    let jobs = registry.jobs;
    let p = |j: JobView| j.status == status;
    let chosen = jobs.filter(p);
    let sorted = with_status(jobs, status);
    lemma_with_status(jobs, status);
    sorting_orders_and_permutes(chosen, by_sequence());
    assert(jobs.no_duplicates());
    lemma_filter_no_duplicates(jobs, p);
    chosen.lemma_multiset_has_no_duplicates();
    sorted.lemma_multiset_has_no_duplicates_conv();
    assert forall|i: int, k: int| 0 <= i < k < sorted.len() implies (#[trigger] sorted[i]).sequence
        < (#[trigger] sorted[k]).sequence by {
        assert(by_sequence()(sorted[i], sorted[k]));
        assert(sorted.contains(sorted[i]) && sorted.contains(sorted[k]));
        let a = choose|a: int| 0 <= a < jobs.len() && #[trigger] jobs[a] == sorted[i];
        let b = choose|b: int| 0 <= b < jobs.len() && #[trigger] jobs[b] == sorted[k];
        assert(sorted[i] != sorted[k]);
        assert(jobs[a].sequence != jobs[b].sequence);
    }
}

proof fn lemma_filter_no_duplicates(jobs: Seq<JobView>, p: spec_fn(JobView) -> bool)
    requires
        jobs.no_duplicates(),
    ensures
        jobs.filter(p).no_duplicates(),
    decreases jobs.len(),
{
    reveal(Seq::filter);
    if jobs.len() > 0 {
        let d = jobs.drop_last();
        lemma_filter_no_duplicates(d, p);
        let kept = d.filter(p);
        if p(jobs.last()) {
            assert(!kept.contains(jobs.last())) by {
                if kept.contains(jobs.last()) {
                    d.lemma_filter_contains_rev(p, jobs.last());
                    let k = choose|k: int| 0 <= k < d.len() && d[k] == jobs.last();
                    assert(jobs[k] == jobs[jobs.len() - 1]);
                }
            }
            assert(jobs.filter(p) == kept.push(jobs.last()));
        }
    }
}

/// The jobs come by ascending numbers.
pub open spec fn numbers_ascend(jobs: Seq<JobView>) -> bool {
    forall|i: int, k: int|
        0 <= i < k < jobs.len() ==> (#[trigger] jobs[i]).sequence < (#[trigger] jobs[k]).sequence
}

/// The jobs of one status are listed once each, as they are stored, by the numbers under which they
/// were accepted; no job is listed under two statuses.
pub proof fn jobs_are_listed_in_order_of_acceptance(
    registry: RegistryView,
    status: PullRequestJobStatus,
    other: PullRequestJobStatus,
)
    requires
        ids_ascending(registry.jobs),
        in_sequence(registry),
        status != other,
    ensures
        numbers_ascend(with_status(registry.jobs, status)),
        with_status(registry.jobs, status).no_duplicates(),
        forall|j: JobView|
            #[trigger] with_status(registry.jobs, status).contains(j) <==> registry.jobs.contains(j)
                && j.status == status,
        forall|j: JobView| #[trigger]
            with_status(registry.jobs, status).contains(j) ==> lookup(registry.jobs, j.delivery_id)
                == Some(j) && !with_status(registry.jobs, other).contains(j),
{
    let jobs = registry.jobs;
    let listed = with_status(jobs, status);
    lemma_with_status(jobs, status);
    lemma_with_status(jobs, other);
    lemma_numbers_ascend(registry, status);
    assert(listed.no_duplicates()) by {
        assert forall|i: int, k: int| 0 <= i < listed.len() && 0 <= k < listed.len() && i
            != k implies listed[i] != listed[k] by {
            if i < k {
                assert(listed[i].sequence < listed[k].sequence);
            } else {
                assert(listed[k].sequence < listed[i].sequence);
            }
        }
    }
    assert forall|j: JobView| #[trigger] listed.contains(j) implies lookup(jobs, j.delivery_id)
        == Some(j) && !with_status(jobs, other).contains(j) by {
        let k = choose|k: int| 0 <= k < jobs.len() && jobs[k] == j;
        lemma_lookup_at(jobs, k);
    }
}

proof fn lemma_ascending_is_unique(a: Seq<JobView>, b: Seq<JobView>)
    requires
        numbers_ascend(a),
        numbers_ascend(b),
        forall|j: JobView| #[trigger] a.contains(j) <==> b.contains(j),
    ensures
        a == b,
    decreases a.len(),
{
    if a.len() == 0 {
        if b.len() > 0 {
            assert(b.contains(b[0]));
            assert(a.contains(b[0]));
        }
        assert(a =~= b);
    } else {
        assert(a.contains(a[0]));
        assert(b.contains(a[0]));
        assert(b.contains(b[0]));
        assert(a.contains(b[0]));
        let m = choose|m: int| 0 <= m < b.len() && b[m] == a[0];
        let k = choose|k: int| 0 <= k < a.len() && a[k] == b[0];
        assert(a[0] == b[0]) by {
            if m > 0 {
                assert(b[0].sequence < b[m].sequence);
                if k > 0 {
                    assert(a[0].sequence < a[k].sequence);
                }
            }
        }
        let x = a.drop_first();
        let y = b.drop_first();
        assert forall|i: int, k: int| 0 <= i < k < x.len() implies (#[trigger] x[i]).sequence < (
        #[trigger] x[k]).sequence by {
            assert(a[i + 1].sequence < a[k + 1].sequence);
        }
        assert forall|i: int, k: int| 0 <= i < k < y.len() implies (#[trigger] y[i]).sequence < (
        #[trigger] y[k]).sequence by {
            assert(b[i + 1].sequence < b[k + 1].sequence);
        }
        assert forall|j: JobView| #[trigger] x.contains(j) <==> y.contains(j) by {
            lemma_rest_holds(a, j);
            lemma_rest_holds(b, j);
            assert(a.contains(j) <==> b.contains(j));
        }
        lemma_ascending_is_unique(x, y);
        assert(a =~= seq![a[0]] + x);
        assert(b =~= seq![b[0]] + y);
    }
}

proof fn lemma_rest_holds(a: Seq<JobView>, j: JobView)
    requires
        a.len() > 0,
        numbers_ascend(a),
    ensures
        a.drop_first().contains(j) <==> a.contains(j) && j != a[0],
{
    let x = a.drop_first();
    if x.contains(j) {
        let k = choose|k: int| 0 <= k < x.len() && x[k] == j;
        assert(a[k + 1] == j);
        assert(a[0].sequence < a[k + 1].sequence);
    }
    if a.contains(j) && j != a[0] {
        let k = choose|k: int| 0 <= k < a.len() && a[k] == j;
        assert(x[k - 1] == j);
    }
}

/// An accepted delivery queues up last: the jobs that wait afterwards are those that waited before,
/// in their order, without the ones that it displaces, and then the new one.
pub proof fn accepted_jobs_queue_up_last(registry: RegistryView, input: PullRequestJobInput)
    requires
        ids_ascending(registry.jobs),
        in_sequence(registry),
        lookup(registry.jobs, input.delivery_id@) is None,
        registry.next_sequence < u64::MAX,
    ensures
        with_status(accepting(registry, input).jobs, PullRequestJobStatus::Queued) == with_status(
            registry.jobs,
            PullRequestJobStatus::Queued,
        ).filter(|j: JobView| !displaces(input)(j)).push(new_job(input, registry.next_sequence)),
{
    let status = PullRequestJobStatus::Queued;
    let jobs = registry.jobs;
    let x = new_job(input, registry.next_sequence);
    let next = accepting(registry, input);
    let queue = with_status(jobs, status);
    let p = |j: JobView| !displaces(input)(j);
    let kept = queue.filter(p);
    let left = with_status(next.jobs, status);
    let right = kept.push(x);
    accepting_numbers_jobs_in_turn(registry, input, registry.schema_version);
    accepting_keeps_order(registry, input);
    lemma_numbers_ascend(registry, status);
    lemma_numbers_ascend(next, status);
    lemma_with_status(jobs, status);
    lemma_with_status(next.jobs, status);
    lemma_kept_ascend(queue, p);
    assert forall|i: int, k: int| 0 <= i < k < right.len() implies (#[trigger] right[i]).sequence
        < (#[trigger] right[k]).sequence by {
        if k == kept.len() {
            assert(kept.contains(kept[i]));
            queue.lemma_filter_contains_rev(p, kept[i]);
            assert(queue.contains(kept[i]));
            assert(jobs.contains(kept[i]));
            assert(kept[i].sequence < x.sequence);
        }
    }
    assert forall|j: JobView| #[trigger] left.contains(j) <==> right.contains(j) by {
        lemma_still_queued(registry, input, j);
        if right.contains(j) {
            let k = choose|k: int| 0 <= k < right.len() && right[k] == j;
            if k < kept.len() {
                assert(kept[k] == j);
                queue.lemma_filter_pred(p, k);
                assert(kept.contains(j));
                queue.lemma_filter_contains_rev(p, j);
                assert(queue.contains(j));
            }
        }
        if left.contains(j) {
            if j == x {
                assert(right[kept.len() as int] == x);
            } else {
                assert(queue.contains(j));
                let k = choose|k: int| 0 <= k < queue.len() && queue[k] == j;
                queue.lemma_filter_contains(p, k);
                let m = choose|m: int| 0 <= m < kept.len() && kept[m] == j;
                assert(right[m] == j);
            }
        }
    }
    lemma_ascending_is_unique(left, right);
}

proof fn lemma_kept_ascend(jobs: Seq<JobView>, p: spec_fn(JobView) -> bool)
    requires
        numbers_ascend(jobs),
    ensures
        numbers_ascend(jobs.filter(p)),
    decreases jobs.len(),
{
    reveal(Seq::filter);
    if jobs.len() > 0 {
        let d = jobs.drop_last();
        assert forall|i: int, k: int| 0 <= i < k < d.len() implies (#[trigger] d[i]).sequence < (
        #[trigger] d[k]).sequence by {
            assert(jobs[i].sequence < jobs[k].sequence);
        }
        lemma_kept_ascend(d, p);
        let kept = d.filter(p);
        if p(jobs.last()) {
            let all = kept.push(jobs.last());
            assert(jobs.filter(p) == all);
            assert forall|i: int, k: int| 0 <= i < k < all.len() implies (
            #[trigger] all[i]).sequence < (#[trigger] all[k]).sequence by {
                if k == kept.len() {
                    assert(kept.contains(kept[i]));
                    d.lemma_filter_contains_rev(p, kept[i]);
                    let m = choose|m: int| 0 <= m < d.len() && d[m] == kept[i];
                    assert(jobs[m].sequence < jobs[jobs.len() - 1].sequence);
                }
            }
        }
    }
}

/// A job waits after a delivery is accepted exactly where it is the new one, or waited before and
/// is not displaced.
proof fn lemma_still_queued(registry: RegistryView, input: PullRequestJobInput, j: JobView)
    requires
        ids_ascending(registry.jobs),
        lookup(registry.jobs, input.delivery_id@) is None,
    ensures
        accepting(registry, input).jobs.contains(j) && j.status == PullRequestJobStatus::Queued
            <==> j == new_job(input, registry.next_sequence) || (registry.jobs.contains(j)
            && j.status == PullRequestJobStatus::Queued && !displaces(input)(j)),
{
    let jobs = registry.jobs;
    let middle = superseding(jobs, input);
    let x = new_job(input, registry.next_sequence);
    accepting_keeps_order(registry, input);
    lemma_same_ids_ascending(jobs, middle);
    lemma_lookup(jobs, input.delivery_id@);
    assert forall|i: int| 0 <= i < middle.len() implies (#[trigger] middle[i]).delivery_id
        != x.delivery_id by {
        assert(middle[i].delivery_id == jobs[i].delivery_id);
    }
    let at = lemma_insert_position(middle, x);
    let all = middle.insert(at, x);
    pruning_drops_only_the_oldest_finished(all);
    if accepting(registry, input).jobs.contains(j) && j != x && j.status
        == PullRequestJobStatus::Queued {
        assert(middle.contains(j));
        let k = choose|k: int| 0 <= k < middle.len() && middle[k] == j;
        assert(jobs[k] == j);
    }
    if jobs.contains(j) && j.status == PullRequestJobStatus::Queued && !displaces(input)(j) {
        let k = choose|k: int| 0 <= k < jobs.len() && jobs[k] == j;
        assert(middle[k] == j);
        assert(all[if k < at { k } else { k + 1 }] == j);
        assert(all.contains(j));
    }
}

// ---------------------------------------------------------------------------
// Writes that fail
// ---------------------------------------------------------------------------

/// A delivery whose acceptance fails can be delivered again. Where nothing was written, all is as
/// before, and the delivery can be accepted. Where the write is in place but was not synced, the job
/// waits already: until the directory is synced nothing is decided, and then the delivery is answered
/// as a duplicate.
pub proof fn failed_acceptance_can_be_repeated(
    before: PullRequestJobStore,
    input: PullRequestJobInput,
    candidate: PullRequestJobRegistry,
    admission: PullRequestJobAdmission,
    outcome: PersistOutcome,
    after: PullRequestJobStore,
    error: PullRequestJobStoreError,
)
    requires
        before.wf(),
        acceptance(before, input, StoreStep::Write(candidate, admission)),
        committed(before, candidate, admission, outcome, after, Err(error)),
    ensures
        !(error is PostRenameDirectorySync) ==> {
            &&& after == before
            &&& forall|step: StoreStep<PullRequestJobAdmission>| #[trigger]
                acceptance(after, input, step) ==> (step matches StoreStep::Write(c, _) && c@
                    == candidate@)
        },
        error is PostRenameDirectorySync ==> {
            &&& with_status(after.registry@.jobs, PullRequestJobStatus::Queued).contains(
                new_job(input, before.registry.next_sequence),
            )
            &&& lookup(after.registry@.jobs, input.delivery_id@) == Some(
                new_job(input, before.registry.next_sequence),
            )
            &&& forall|step: StoreStep<PullRequestJobAdmission>| #[trigger]
                acceptance(after, input, step) ==> step is SyncParent
            &&& forall|step: StoreStep<PullRequestJobAdmission>| #[trigger]
                acceptance(
                    (PullRequestJobStore { directory_sync_pending: false, ..after }),
                    input,
                    step,
                ) ==> step == StoreStep::<PullRequestJobAdmission>::Done(
                    PullRequestJobAdmission::DuplicateDelivery,
                )
        },
{
    if error is PostRenameDirectorySync {
        accepted_delivery_is_known(before.registry@, input);
        accepting_keeps_order(before.registry@, input);
        lemma_with_status(after.registry@.jobs, PullRequestJobStatus::Queued);
    }
}

// ---------------------------------------------------------------------------
// Backoff
// ---------------------------------------------------------------------------

/// The wait before a retry is between one second and one minute and never shrinks as attempts
/// add up.
pub proof fn backoff_is_bounded_and_grows(attempts: u32, more: u32)
    requires
        attempts <= more,
    ensures
        1_000 <= backoff_millis(attempts) <= 60_000,
        backoff_millis(attempts) <= backoff_millis(more),
{
    reveal_with_fuel(doubled, 7);
}

} // verus!
