//! The jobs of a queue, and the workers that share them.
//!
//! A worker asks for a job when it has none, or when it is done with the one it has. So it never
//! has more than one.

use vstd::prelude::*;

use crate::downloader;
use crate::downloader::DownloadJob;

verus! {

/// The jobs that nobody has taken yet, and the index of the job that each worker has.
#[derive(Debug)]
pub struct WorkPool {
    pub waiting: Vec<DownloadJob>,
    pub busy: Vec<Option<usize>>,
}

/// The content of a [`WorkPool`].
#[verifier::ext_equal]
pub struct Pool {
    pub waiting: Seq<DownloadJob>,
    pub busy: Seq<Option<usize>>,
}

impl View for WorkPool {
    type V = Pool;

    open spec fn view(&self) -> Pool {
        Pool { waiting: self.waiting@, busy: self.busy@ }
    }
}

/// A pool in which no worker has a job yet.
pub open spec fn full_pool(workers: nat, jobs: Seq<DownloadJob>) -> Pool {
    Pool { waiting: jobs, busy: Seq::new(workers, |i: int| None) }
}

/// The job that comes next.
pub open spec fn next_job(pool: Pool) -> Option<DownloadJob> {
    if pool.waiting.len() == 0 {
        None
    } else {
        Some(pool.waiting[0])
    }
}

/// The pool after a worker, done with the job it had, took the next one, if there was one.
pub open spec fn after_take(pool: Pool, worker: int) -> Pool {
    match next_job(pool) {
        Some(job) => Pool {
            waiting: pool.waiting.drop_first(),
            busy: pool.busy.update(worker, Some(job.index)),
        },
        None => Pool { busy: pool.busy.update(worker, None), ..pool },
    }
}

/// The number of jobs that are being processed.
pub open spec fn in_flight(pool: Pool) -> nat {
    pool.busy.filter(|has: Option<usize>| has is Some).len()
}

impl WorkPool {
    /// Makes a pool in which no worker has a job yet.
    pub fn new(workers: usize, jobs: Vec<DownloadJob>) -> (pool: WorkPool)
        ensures
            pool@ == full_pool(workers as nat, jobs@),
    {
        let mut busy: Vec<Option<usize>> = Vec::new();
        let mut i: usize = 0;
        while i < workers
            invariant
                i <= workers,
                busy@ =~= Seq::new(i as nat, |k: int| None::<usize>),
            decreases workers - i,
        {
            busy.push(None);
            i = i + 1;
        }
        WorkPool { waiting: jobs, busy }
    }

    /// Gives a worker, which is done with the job it had, the next one, if there is one.
    pub fn take(&mut self, worker: usize) -> (job: Option<DownloadJob>)
        requires
            worker < old(self)@.busy.len(),
        ensures
            job == next_job(old(self)@),
            final(self)@ == after_take(old(self)@, worker as int),
    {
        if self.waiting.len() == 0 {
            self.busy[worker] = None;
            return None;
        }
        let job = self.waiting.remove(0);
        self.busy[worker] = Some(job.index);
        assert(self@ =~= after_take(old(self)@, worker as int));
        Some(job)
    }
}

/// The pool after workers took jobs, one after another.
pub open spec fn after_takes(pool: Pool, turns: Seq<int>) -> Pool
    decreases turns.len(),
{
    if turns.len() == 0 {
        pool
    } else {
        after_take(after_takes(pool, turns.drop_last()), turns.last())
    }
}

/// The jobs that workers got, one after another.
pub open spec fn handed_out(pool: Pool, turns: Seq<int>) -> Seq<DownloadJob>
    decreases turns.len(),
{
    if turns.len() == 0 {
        Seq::empty()
    } else {
        let before = handed_out(pool, turns.drop_last());
        match next_job(after_takes(pool, turns.drop_last())) {
            Some(job) => before.push(job),
            None => before,
        }
    }
}

/// Whether each turn is that of one of so many workers.
pub open spec fn turns_among(turns: Seq<int>, workers: nat) -> bool {
    forall|p: int| 0 <= p < turns.len() ==> 0 <= #[trigger] turns[p] < workers
}

proof fn lemma_workers_stay(pool: Pool, turns: Seq<int>)
    requires
        turns_among(turns, pool.busy.len()),
    ensures
        after_takes(pool, turns).busy.len() == pool.busy.len(),
    decreases turns.len(),
{
    if turns.len() > 0 {
        let before = turns.drop_last();
        assert forall|p: int| 0 <= p < before.len() implies 0 <= #[trigger] before[p]
            < pool.busy.len() by {
            assert(before[p] == turns[p]);
        }
        lemma_workers_stay(pool, before);
        assert(turns.last() == turns[turns.len() - 1]);
    }
}

/// However the workers of a queue take turns, no more jobs are being processed at any moment than
/// workers were asked for, and where none was, no more than one; nor more than there are jobs.
pub proof fn law_jobs_in_flight_are_limited(
    threads: nat,
    jobs: Seq<DownloadJob>,
    turns: Seq<int>,
)
    requires
        turns_among(turns, downloader::worker_limit(threads, jobs.len())),
    ensures
        ({
            let pool = full_pool(downloader::worker_limit(threads, jobs.len()), jobs);
            let flying = in_flight(after_takes(pool, turns));
            &&& flying <= downloader::worker_limit(threads, jobs.len())
            &&& flying <= jobs.len()
            &&& flying <= threads || flying <= 1
        }),
{
    let pool = full_pool(downloader::worker_limit(threads, jobs.len()), jobs);
    let after = after_takes(pool, turns);
    lemma_workers_stay(pool, turns);
    after.busy.lemma_filter_len(|has: Option<usize>| has is Some);
}

/// However the workers of a queue take turns, each job is handed out once, in the order of the
/// queue: what was handed out and what still waits are all the jobs. So a worker that gets none
/// comes after all jobs were handed out.
pub proof fn law_jobs_are_handed_out_once(pool: Pool, turns: Seq<int>)
    ensures
        handed_out(pool, turns) + after_takes(pool, turns).waiting == pool.waiting,
        next_job(after_takes(pool, turns)) is None ==> handed_out(pool, turns) == pool.waiting,
    decreases turns.len(),
{
    if turns.len() > 0 {
        law_jobs_are_handed_out_once(pool, turns.drop_last());
        let before = after_takes(pool, turns.drop_last());
        if before.waiting.len() > 0 {
            assert(before.waiting =~= seq![before.waiting[0]] + before.waiting.drop_first());
        }
    }
    assert(handed_out(pool, turns) + after_takes(pool, turns).waiting =~= pool.waiting);
    if after_takes(pool, turns).waiting.len() == 0 {
        assert(handed_out(pool, turns) =~= pool.waiting);
    }
}

/// A worker that asks again has only the job that it gets then; the others keep theirs.
pub proof fn law_a_worker_has_one_job(pool: Pool, worker: int, other: int)
    requires
        0 <= worker < pool.busy.len(),
        0 <= other < pool.busy.len(),
        other != worker,
    ensures
        after_take(pool, worker).busy[worker] == match next_job(pool) {
            Some(job) => Some(job.index),
            None => None,
        },
        after_take(pool, worker).busy[other] == pool.busy[other],
{
}

/// A pool begins with all jobs waiting, in their order, and no worker busy.
pub proof fn law_pools_begin_with_all_jobs_waiting(workers: nat, jobs: Seq<DownloadJob>, i: int)
    requires
        0 <= i < workers,
    ensures
        full_pool(workers, jobs).waiting == jobs,
        full_pool(workers, jobs).busy.len() == workers,
        full_pool(workers, jobs).busy[i] is None,
{
}

/// The job that comes next is the first that waits; where none does, there is none.
pub proof fn law_first_waiting_job_comes_next(pool: Pool)
    ensures
        pool.waiting.len() > 0 ==> next_job(pool) == Some(pool.waiting[0]),
        pool.waiting.len() == 0 ==> next_job(pool) is None,
{
}

} // verus!
