//! What the status shows while downloads are under way.

use vstd::prelude::*;

use crate::app;
use crate::app::accounts;
use crate::app::downloads;
use crate::app::{Mode, State};
use crate::downloader::course;
use crate::downloader::job::{JobReport, Stage, Transfer};
use crate::downloader::Event;
use crate::text;

verus! {

// ---------------------------------------------------------------------------------------------
// One event
// ---------------------------------------------------------------------------------------------
/// The words in which an event is told as the last message: what is written, what was saved or
/// skipped, what went wrong, or where all was saved. Progress is not told.
pub proof fn law_events_are_told(state: State, event: Event)
    requires
        state.status is Some,
    ensures
        downloads::after_event(state, event).status is Some,
        ({
            let message = downloads::after_event(state, event).status->0.last_message;
            match event {
                Event::Started { file_name, .. } => message == "Writing "@ + file_name,
                Event::Progress { .. } => message == state.status->0.last_message,
                Event::Finished { path, .. } => message == "Saved "@ + path,
                Event::Skipped { path, .. } => message == "Skipped "@ + path,
                Event::Error { message: words, .. } => message == words,
                Event::Complete => message == "Finished saving into "@ + state.output_dir,
            }
        }),
{
}

/// Every event but progress leaves one line at the end of the log, also where there is no status:
/// which job of how many started, what was saved or skipped, what went wrong, or that all is done.
pub proof fn law_events_are_logged(state: State, event: Event)
    ensures
        ({
            let lines = downloads::after_event(state, event).log_lines;
            let log = state.log_lines;
            match event {
                Event::Started { index, total, title, .. } => lines == app::logged_in(
                    log,
                    "Started "@ + text::decimal((index + 1) as nat) + "/"@ + text::decimal(
                        total as nat,
                    ) + ": "@ + title,
                ),
                Event::Progress { .. } => lines == log,
                Event::Finished { path, .. } => lines == app::logged_in(log, "Saved "@ + path),
                Event::Skipped { path, .. } => lines == app::logged_in(log, "Skipped "@ + path),
                Event::Error { message, .. } => lines == app::logged_in(log, "Error: "@ + message),
                Event::Complete => lines == app::logged_in(log, "All downloads complete."@),
            }
        }),
{
}

/// An event changes nothing but the status, the log, and, at the end, the mode: the catalog, what
/// is expanded and chosen, and the cursor stay as they are. Only the end of the queue completes it.
pub proof fn law_events_leave_the_tree_alone(state: State, event: Event)
    ensures
        ({
            let after = downloads::after_event(state, event);
            &&& after == (State {
                status: after.status,
                log_lines: after.log_lines,
                mode: after.mode,
                ..state
            })
            &&& after.mode == if event == Event::Complete {
                Mode::Browsing
            } else {
                state.mode
            }
            &&& after.status is Some == state.status is Some
            &&& state.status matches Some(status) ==> {
                &&& after.status->0.thread_count == status.thread_count
                &&& after.status->0.complete == (status.complete || event == Event::Complete)
                &&& after.status->0.total_items == match event {
                    Event::Started { total, .. } => total,
                    _ => status.total_items,
                }
            }
        }),
{
}

/// When downloads begin, nothing of them is done yet: the status tells how many files there are and
/// how many workers were asked for, at least one; the log starts anew; and the catalog and what is
/// chosen stay as they are.
pub proof fn law_downloads_begin_with_nothing_done(state: State, count: nat)
    requires
        count <= usize::MAX,
    ensures
        ({
            let after = downloads::begun(state, count);
            let workers = after.status->0.thread_count;
            &&& after.mode == Mode::Downloading
            &&& after.status is Some
            &&& after.status->0.total_items == count
            &&& after.status->0.completed_items == 0
            &&& after.status->0.failed_items == 0
            &&& forall|index: usize| !after.status->0.active_jobs.contains_key(index)
            &&& !after.status->0.complete
            &&& workers >= 1 && workers >= state.download_threads
            &&& workers == 1 || workers == state.download_threads
            &&& after.status->0.last_message == "Downloading "@ + text::decimal(count)
                + " files into "@ + state.output_dir
            &&& after.log_lines == seq![
                "Downloading "@ + text::decimal(count) + " assets with up to "@ + text::decimal(
                    workers as nat,
                ) + " workers to "@ + state.output_dir,
            ]
            &&& after == (State {
                mode: after.mode,
                status: after.status,
                log_lines: after.log_lines,
                ..state
            })
        }),
{
}

/// At least one worker is asked for, and else as many as the user wants.
pub proof fn law_at_least_one_worker_is_asked_for(state: State)
    ensures
        state.download_threads > 0 ==> downloads::thread_count(state) == state.download_threads,
        state.download_threads == 0 ==> downloads::thread_count(state) == 1,
{
}

/// Every end of a job counts as completed, and an error as failed too; an error that is about no
/// job counts as neither, and no other event does.
pub proof fn law_only_ends_of_jobs_count(state: State, event: Event)
    requires
        state.status is Some,
        state.status->0.failed_items <= state.status->0.completed_items < usize::MAX,
    ensures
        ({
            let before = state.status->0;
            let after = downloads::after_event(state, event).status->0;
            match event {
                Event::Finished { .. } => after.completed_items == before.completed_items + 1
                    && after.failed_items == before.failed_items,
                Event::Skipped { .. } => after.completed_items == before.completed_items + 1
                    && after.failed_items == before.failed_items,
                Event::Error { index, .. } => if index < usize::MAX {
                    after.completed_items == before.completed_items + 1 && after.failed_items
                        == before.failed_items + 1
                } else {
                    after.completed_items == before.completed_items && after.failed_items
                        == before.failed_items
                },
                _ => after.completed_items == before.completed_items && after.failed_items
                    == before.failed_items,
            }
        }),
{
}

// ---------------------------------------------------------------------------------------------
// Many events
// ---------------------------------------------------------------------------------------------
/// Whether an event tells how far a job has come.
pub open spec fn is_news(event: Event, index: usize) -> bool {
    event is Progress && event->Progress_index == index
}

/// Whether an event starts a job.
pub open spec fn is_start(event: Event, index: usize) -> bool {
    event is Started && event->Started_index == index
}

/// Whether a job has started with the event at `start`, and neither ended nor started again since.
pub open spec fn under_way(list: Seq<Event>, start: int, index: usize) -> bool {
    &&& 0 <= start < list.len()
    &&& is_start(list[start], index)
    &&& forall|k: int|
        start < k < list.len() ==> !course::ends(#[trigger] list[k], index) && !is_start(
            list[k],
            index,
        )
}

/// A job that is under way is shown with the title and the file name of its start, and with the
/// bytes and the total of the last progress since: no bytes, and the total of its start, where
/// there is none. Nothing that other jobs do in between matters.
pub proof fn law_live_jobs_show_their_last_news(
    state: State,
    list: Seq<Event>,
    start: int,
    index: usize,
)
    requires
        state.status is Some,
        under_way(list, start, index),
    ensures
        ({
            let jobs = after_status(state, list).active_jobs;
            let job = jobs[index];
            &&& jobs.contains_key(index)
            &&& job.title == list[start]->title
            &&& job.file_name == list[start]->file_name
            &&& (forall|k: int| start < k < list.len() ==> !is_news(#[trigger] list[k], index)) ==> {
                &&& job.bytes_downloaded == 0
                &&& job.total_bytes == list[start]->Started_total_bytes
            }
            &&& forall|q: int|
                start < q < list.len() && is_news(#[trigger] list[q], index) && (forall|k: int|
                    q < k < list.len() ==> !is_news(#[trigger] list[k], index)) ==> {
                    &&& job.bytes_downloaded == list[q]->bytes_downloaded
                    &&& job.total_bytes == list[q]->Progress_total_bytes
                }
        }),
    decreases list.len(),
{
    let less = list.drop_last();
    let last = list.len() - 1;
    lemma_status_stays(state, less);
    if start < last {
        assert forall|k: int| start < k < less.len() implies !course::ends(
            #[trigger] less[k],
            index,
        ) && !is_start(less[k], index) by {
            assert(less[k] == list[k]);
        }
        assert(less[start] == list[start]);
        law_live_jobs_show_their_last_news(state, less, start, index);
        assert(!course::ends(list[last], index) && !is_start(list[last], index));
        let job = after_status(state, less).active_jobs[index];
        if !is_news(list[last], index) {
            if forall|k: int| start < k < list.len() ==> !is_news(#[trigger] list[k], index) {
                assert forall|k: int| start < k < less.len() implies !is_news(
                    #[trigger] less[k],
                    index,
                ) by {
                    assert(less[k] == list[k]);
                }
            }
            assert forall|q: int|
                start < q < list.len() && is_news(#[trigger] list[q], index) && (forall|k: int|
                    q < k < list.len() ==> !is_news(#[trigger] list[k], index)) implies {
                &&& job.bytes_downloaded == list[q]->bytes_downloaded
                &&& job.total_bytes == list[q]->Progress_total_bytes
            } by {
                assert(less[q] == list[q]);
                assert forall|k: int| q < k < less.len() implies !is_news(#[trigger] less[k], index) by {
                    assert(less[k] == list[k]);
                }
            }
        } else {
            assert forall|q: int|
                start < q < list.len() && is_news(#[trigger] list[q], index) && (forall|k: int|
                    q < k < list.len() ==> !is_news(#[trigger] list[k], index)) implies q
                == last by {
                if q < last {
                    assert(is_news(list[last], index));
                }
            }
        }
    }
}

/// The status after some events.
pub open spec fn after_status(state: State, list: Seq<Event>) -> app::Status {
    accounts::after_events(state, list).status->0
}

proof fn lemma_status_stays(state: State, list: Seq<Event>)
    requires
        state.status is Some,
    ensures
        accounts::after_events(state, list).status is Some,
    decreases list.len(),
{
    if list.len() > 0 {
        lemma_status_stays(state, list.drop_last());
    }
}

/// What is shown of a job depends on its own events alone.
pub proof fn law_jobs_do_not_disturb_each_other(state: State, list: Seq<Event>, index: usize)
    requires
        state.status is Some,
    ensures
        ({
            let own = list.filter(|event: Event| course::belongs(event, index));
            let all_shown = after_status(state, list).active_jobs;
            let own_shown = after_status(state, own).active_jobs;
            &&& all_shown.contains_key(index) == own_shown.contains_key(index)
            &&& all_shown.contains_key(index) ==> all_shown[index] == own_shown[index]
        }),
    decreases list.len(),
{
    reveal(Seq::filter);
    let mine = |event: Event| course::belongs(event, index);
    if list.len() > 0 {
        let less = list.drop_last();
        law_jobs_do_not_disturb_each_other(state, less, index);
        lemma_status_stays(state, less);
        let kept = less.filter(mine);
        lemma_status_stays(state, kept);
        if mine(list.last()) {
            assert(kept.push(list.last()).drop_last() =~= kept);
        }
    }
}

/// The bytes shown of a download that is under way are those written to its part file, as far as
/// they can be counted, and never pass the size of the file, where it is known. A download that has
/// not started, or is over, is not shown.
pub proof fn law_bytes_shown_are_bytes_written(
    state: State,
    transfer: Transfer,
    reports: Seq<JobReport>,
)
    requires
        state.status is Some,
        !state.status->0.active_jobs.contains_key(transfer.index),
        transfer.stage is Asking,
    ensures
        ({
            let now = course::course(transfer, reports);
            let jobs = after_status(state, now.events).active_jobs;
            let job = jobs[transfer.index];
            match now.stage {
                Stage::Asking => !jobs.contains_key(transfer.index),
                Stage::Inspecting { .. } => !jobs.contains_key(transfer.index),
                Stage::Requesting { .. } => !jobs.contains_key(transfer.index),
                Stage::Over => !jobs.contains_key(transfer.index),
                _ => {
                    &&& jobs.contains_key(transfer.index)
                    &&& job.title == transfer.title@
                    &&& job.file_name == transfer.file_name@
                    &&& job.bytes_downloaded == course::counted(now.written)
                    &&& job.total_bytes matches Some(total) ==> job.bytes_downloaded <= total
                },
            }
        }),
{
    let now = course::course(transfer, reports);
    let list = now.events;
    let index = transfer.index;
    course::law_downloads_are_orderly(transfer, reports);
    accounts::law_active_jobs_are_live(state, list, index);
    match now.stage {
        Stage::Asking => {},
        Stage::Inspecting { .. } => {},
        Stage::Requesting { .. } => {},
        Stage::Over => {},
        _ => {
            lemma_streamed_is_shown(state, transfer, list);
            if let Stage::Writing { total_bytes, .. } = now.stage {
                lemma_progress_counts_written(transfer, reports);
            }
        },
    }
}

/// The last event of a download whose file is being written tells how much of it was written.
proof fn lemma_progress_counts_written(transfer: Transfer, reports: Seq<JobReport>)
    requires
        transfer.stage is Asking,
        course::course(transfer, reports).stage is Writing,
    ensures
        ({
            let now = course::course(transfer, reports);
            course::counted(now.written) == if now.events.len() == 1 {
                0
            } else {
                now.events.last()->bytes_downloaded
            }
        }),
    decreases reports.len(),
{
    if reports.len() > 0 {
        let fewer = reports.drop_last();
        course::law_downloads_are_orderly(transfer, fewer);
        if course::course(transfer, fewer).stage is Writing {
            lemma_progress_counts_written(transfer, fewer);
        }
    }
}

proof fn lemma_streamed_is_shown(state: State, transfer: Transfer, list: Seq<Event>)
    requires
        state.status is Some,
        exists|total_bytes: Option<u64>, downloaded: u64|
            course::streamed(transfer, list, total_bytes, downloaded),
    ensures
        ({
            let jobs = after_status(state, list).active_jobs;
            let job = jobs[transfer.index];
            &&& jobs.contains_key(transfer.index)
            &&& job.title == transfer.title@
            &&& job.file_name == transfer.file_name@
            &&& job.bytes_downloaded == if list.len() == 1 {
                0
            } else {
                list.last()->bytes_downloaded
            }
            &&& job.total_bytes matches Some(total) ==> job.bytes_downloaded <= total
        }),
{
    let (total_bytes, downloaded) = choose|total_bytes: Option<u64>, downloaded: u64|
        course::streamed(transfer, list, total_bytes, downloaded);
    let index = transfer.index;
    assert forall|k: int| 0 < k < list.len() implies !course::ends(#[trigger] list[k], index)
        && !is_start(list[k], index) by {}
    law_live_jobs_show_their_last_news(state, list, 0, index);
    if list.len() > 1 {
        assert(is_news(list[list.len() - 1], index));
    }
}

} // verus!
