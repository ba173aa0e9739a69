//! How the status sums up a whole queue.

use vstd::prelude::*;

use crate::app;
use crate::app::downloads;
use crate::app::{Mode, State};
use crate::catalog;
use crate::downloader;
use crate::downloader::course;
use crate::downloader::job::{JobReport, Transfer};
use crate::downloader::{Event, Obstacle};

verus! {

/// The state after some events.
pub open spec fn after_events(state: State, list: Seq<Event>) -> State
    decreases list.len(),
{
    if list.len() == 0 {
        state
    } else {
        downloads::after_event(after_events(state, list.drop_last()), list.last())
    }
}

/// The index of the job that an event ends.
pub open spec fn ended_index(event: Event) -> Option<usize> {
    match event {
        Event::Finished { index, .. } => Some(index),
        Event::Skipped { index, .. } => Some(index),
        Event::Error { index, .. } => Some(index),
        _ => None,
    }
}

/// How many jobs with an index below `limit` end in a list of events.
pub open spec fn ended_below(list: Seq<Event>, limit: nat) -> nat {
    list.filter(|event: Event| ended_index(event) matches Some(i) && i < limit).len()
}

/// How many errors there are in a list of events.
pub open spec fn errors_in(list: Seq<Event>) -> nat {
    list.filter(|event: Event| event is Error).len()
}

/// Every end of a job counts as completed, and every failure as failed.
pub proof fn law_ends_are_counted(state: State, list: Seq<Event>)
    requires
        state.status is Some,
        state.status->0.failed_items <= state.status->0.completed_items,
        state.status->0.completed_items + ended_below(list, usize::MAX as nat) <= usize::MAX,
        forall|p: int|
            0 <= p < list.len() ==> ended_index(#[trigger] list[p]) != Some(usize::MAX),
    ensures
        after_events(state, list).status is Some,
        after_events(state, list).status->0.completed_items == state.status->0.completed_items
            + ended_below(list, usize::MAX as nat),
        after_events(state, list).status->0.failed_items == state.status->0.failed_items
            + errors_in(list),
        errors_in(list) <= ended_below(list, usize::MAX as nat),
    decreases list.len(),
{
    reveal(Seq::filter);
    if list.len() > 0 {
        let less = list.drop_last();
        assert(ended_index(list[list.len() - 1]) != Some(usize::MAX));
        assert forall|p: int| 0 <= p < less.len() implies ended_index(#[trigger] less[p]) != Some(
            usize::MAX,
        ) by {
            assert(less[p] == list[p]);
        }
        law_ends_are_counted(state, less);
    }
}

/// Whether a job has started and not ended.
pub open spec fn live(list: Seq<Event>, index: usize) -> bool
    decreases list.len(),
{
    if list.len() == 0 {
        false
    } else {
        match list.last() {
            Event::Started { index: i, .. } if i == index => true,
            last => !course::ends(last, index) && live(list.drop_last(), index),
        }
    }
}

/// The jobs under way are those that have started and not ended.
pub proof fn law_active_jobs_are_live(state: State, list: Seq<Event>, index: usize)
    requires
        state.status is Some,
        !state.status->0.active_jobs.contains_key(index),
    ensures
        after_events(state, list).status is Some,
        after_events(state, list).status->0.active_jobs.contains_key(index) == live(list, index),
    decreases list.len(),
{
    if list.len() > 0 {
        law_active_jobs_are_live(state, list.drop_last(), index);
    }
}

proof fn lemma_live_by_own_events(list: Seq<Event>, index: usize)
    ensures
        live(list, index) == live(
            list.filter(|event: Event| course::belongs(event, index)),
            index,
        ),
    decreases list.len(),
{
    let own = |event: Event| course::belongs(event, index);
    reveal(Seq::filter);
    if list.len() > 0 {
        let less = list.drop_last();
        lemma_live_by_own_events(less, index);
        if own(list.last()) {
            let kept = less.filter(own);
            assert(kept.push(list.last()).drop_last() =~= kept);
        }
    }
}

proof fn lemma_ended_below_next(list: Seq<Event>, limit: nat)
    requires
        limit < usize::MAX,
    ensures
        ended_below(list, limit + 1) == ended_below(list, limit) + course::endings(
            list,
            limit as usize,
        ),
    decreases list.len(),
{
    reveal(Seq::filter);
    if list.len() > 0 {
        lemma_ended_below_next(list.drop_last(), limit);
    }
}

proof fn lemma_none_ended_below_zero(list: Seq<Event>)
    ensures
        ended_below(list, 0) == 0,
    decreases list.len(),
{
    reveal(Seq::filter);
    if list.len() > 0 {
        lemma_none_ended_below_zero(list.drop_last());
    }
}

proof fn lemma_all_ended_below(list: Seq<Event>, limit: nat, jobs: nat)
    requires
        limit <= jobs <= usize::MAX,
        forall|i: int| 0 <= i < jobs ==> #[trigger] course::endings(list, i as usize) == 1,
    ensures
        ended_below(list, limit) == limit,
    decreases limit,
{
    if limit == 0 {
        lemma_none_ended_below_zero(list);
    } else {
        lemma_all_ended_below(list, (limit - 1) as nat, jobs);
        lemma_ended_below_next(list, (limit - 1) as nat);
        assert(course::endings(list, (limit - 1) as usize) == 1);
    }
}

proof fn lemma_ended_below_more(list: Seq<Event>, limit: nat, more: nat)
    requires
        limit <= more,
        forall|p: int|
            0 <= p < list.len() ==> (ended_index(#[trigger] list[p]) matches Some(i) ==> i < limit),
    ensures
        ended_below(list, more) == ended_below(list, limit),
    decreases list.len(),
{
    reveal(Seq::filter);
    if list.len() > 0 {
        let less = list.drop_last();
        assert forall|p: int| 0 <= p < less.len() implies (ended_index(
            #[trigger] less[p],
        ) matches Some(i) ==> i < limit) by {
            assert(less[p] == list[p]);
        }
        lemma_ended_below_more(less, limit, more);
        assert(ended_index(list[list.len() - 1]) matches Some(i) ==> i < limit);
    }
}

/// The number of items stays the same while every start tells it.
proof fn lemma_total_stays(state: State, list: Seq<Event>, jobs: usize)
    requires
        state.status is Some,
        state.status->0.total_items == jobs,
        forall|p: int|
            0 <= p < list.len() ==> (#[trigger] list[p] matches Event::Started { total, .. }
                ==> total == jobs),
    ensures
        after_events(state, list).status is Some,
        after_events(state, list).status->0.total_items == jobs,
    decreases list.len(),
{
    if list.len() > 0 {
        let less = list.drop_last();
        assert forall|p: int| 0 <= p < less.len() implies (#[trigger] less[p] matches Event::Started {
            total,
            ..
        } ==> total == jobs) by {
            assert(less[p] == list[p]);
        }
        lemma_total_stays(state, less, jobs);
        assert(list[list.len() - 1] matches Event::Started { total, .. } ==> total == jobs);
    }
}

/// Whether the status says of a queue of so many jobs that it is complete: all are completed, so
/// many of them failed, none is under way, and browsing goes on.
pub open spec fn says_complete(state: State, jobs: nat, failed: nat) -> bool {
    &&& state.mode == Mode::Browsing
    &&& state.status matches Some(status)
    &&& status.complete
    &&& status.total_items == jobs
    &&& status.completed_items == jobs
    &&& status.failed_items == failed
    &&& status.active_jobs =~= Map::<usize, app::Active>::empty()
}

/// What the status says once each of some jobs has ended and the queue is closed.
proof fn lemma_closed_queue(state: State, list: Seq<Event>, jobs: nat)
    requires
        jobs <= usize::MAX,
        forall|i: int| 0 <= i < jobs ==> #[trigger] course::endings(list, i as usize) == 1,
        forall|p: int|
            0 <= p < list.len() ==> {
                &&& course::of_jobs(#[trigger] list[p], jobs)
                &&& list[p] matches Event::Started { total, .. } ==> total == jobs
            },
        forall|i: int| 0 <= i < jobs ==> !#[trigger] live(list, i as usize),
    ensures
        says_complete(
            after_events(downloads::begun(state, jobs), downloader::closed(list)),
            jobs,
            errors_in(list),
        ),
{
    let start = downloads::begun(state, jobs);
    let before = after_events(start, list);
    assert(downloader::closed(list).drop_last() =~= list);
    assert forall|p: int| 0 <= p < list.len() implies (ended_index(
        #[trigger] list[p],
    ) matches Some(i) ==> i < jobs) by {
        assert(course::of_jobs(list[p], jobs));
    }
    lemma_all_ended_below(list, jobs, jobs);
    lemma_ended_below_more(list, jobs, usize::MAX as nat);
    law_ends_are_counted(start, list);
    assert forall|p: int| 0 <= p < list.len() implies (#[trigger] list[p] matches Event::Started {
        total,
        ..
    } ==> total == jobs) by {
        assert(course::of_jobs(list[p], jobs));
    }
    lemma_total_stays(start, list, jobs as usize);
    assert forall|index: usize| !before.status->0.active_jobs.contains_key(index) by {
        law_active_jobs_are_live(start, list, index);
        if index < jobs {
            assert(!live(list, (index as int) as usize));
        } else {
            let own = |event: Event| course::belongs(event, index);
            lemma_live_by_own_events(list, index);
            assert forall|p: int| 0 <= p < list.len() implies !own(#[trigger] list[p]) by {
                assert(course::of_jobs(list[p], jobs));
            }
            list.lemma_all_neg_filter_empty(own);
        }
    }
}

/// When a queue is complete, the status says so: however the workers took turns, all jobs are
/// completed, as many failed as there were errors, none is under way, and browsing goes on.
pub proof fn law_complete_queues_are_accounted_for(
    state: State,
    transfers: Seq<Transfer>,
    reports: Seq<Seq<JobReport>>,
    all: Seq<Event>,
)
    requires
        course::run_through(transfers, reports),
        forall|i: int|
            0 <= i < transfers.len() ==> (#[trigger] transfers[i]).total == transfers.len(),
        course::woven(course::streams_of(transfers, reports), all),
    ensures
        says_complete(
            after_events(
                downloads::begun(state, transfers.len()),
                downloader::closed(all),
            ),
            transfers.len(),
            errors_in(all),
        ),
{
    let jobs = transfers.len();
    course::law_queues_speak_of_their_jobs(transfers, reports, all);
    course::law_queues_end_each_job_once(transfers, reports, all);
    assert forall|p: int| 0 <= p < all.len() implies {
        &&& course::of_jobs(#[trigger] all[p], jobs)
        &&& all[p] matches Event::Started { total, .. } ==> total == jobs
    } by {
        if let Event::Started { index, .. } = all[p] {
            assert(transfers[index as int].total == jobs);
        }
    }
    assert forall|i: int| 0 <= i < jobs implies !#[trigger] live(all, i as usize) by {
        assert(transfers[i].index == i);
        lemma_live_by_own_events(all, i as usize);
        course::law_downloads_are_orderly(transfers[i], reports[i]);
    }
    lemma_closed_queue(state, all, jobs);
}

/// When something keeps a queue from starting, the status says so: all jobs are completed, and all
/// of them failed.
pub proof fn law_obstacles_are_accounted_for(
    state: State,
    obstacle: Obstacle,
    assets: Seq<catalog::Asset>,
    fault: Seq<char>,
)
    requires
        assets.len() <= usize::MAX,
    ensures
        says_complete(
            after_events(
                downloads::begun(state, assets.len()),
                downloader::closed(downloader::errors_for(obstacle, assets, fault)),
            ),
            assets.len(),
            assets.len(),
        ),
{
    let list = downloader::errors_for(obstacle, assets, fault);
    let jobs = assets.len();
    assert forall|i: int| 0 <= i < jobs implies #[trigger] course::endings(list, i as usize)
        == 1 by {
        course::law_obstacles_end_each_job_once(obstacle, assets, fault);
        let whole = downloader::closed(list);
        assert(course::endings(whole, i as usize) == 1);
        reveal(Seq::filter);
        assert(whole.drop_last() =~= list);
    }
    assert forall|i: int| 0 <= i < jobs implies !#[trigger] live(list, i as usize) by {
        lemma_errors_are_not_live(list, i as usize);
    }
    lemma_only_errors(list);
    lemma_closed_queue(state, list, jobs);
}

proof fn lemma_errors_are_not_live(list: Seq<Event>, index: usize)
    requires
        forall|p: int| 0 <= p < list.len() ==> #[trigger] list[p] is Error,
    ensures
        !live(list, index),
    decreases list.len(),
{
    if list.len() > 0 {
        let less = list.drop_last();
        assert forall|p: int| 0 <= p < less.len() implies #[trigger] less[p] is Error by {
            assert(less[p] == list[p]);
        }
        lemma_errors_are_not_live(less, index);
        assert(list[list.len() - 1] is Error);
    }
}

proof fn lemma_only_errors(list: Seq<Event>)
    requires
        forall|p: int| 0 <= p < list.len() ==> #[trigger] list[p] is Error,
    ensures
        errors_in(list) == list.len(),
    decreases list.len(),
{
    reveal(Seq::filter);
    if list.len() > 0 {
        let less = list.drop_last();
        assert forall|p: int| 0 <= p < less.len() implies #[trigger] less[p] is Error by {
            assert(less[p] == list[p]);
        }
        lemma_only_errors(less);
        assert(list[list.len() - 1] is Error);
    }
}

} // verus!
