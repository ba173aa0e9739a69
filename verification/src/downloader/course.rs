//! What holds of whole downloads and whole queues, whatever is reported.

use vstd::prelude::*;

use crate::catalog;
use crate::downloader;
use crate::downloader::job;
use crate::downloader::job::{JobReport, Stage, Transfer};
use crate::downloader::{Event, Obstacle};

verus! {

/// A download from its beginning up to now.
#[verifier::ext_equal]
pub struct Course {
    pub stage: Stage,
    /// The events sent.
    pub events: Seq<Event>,
    /// Whether the part file was ordered to be removed.
    pub part_removed: bool,
    /// Whether the part file took the place of the target.
    pub renamed: bool,
    /// The number of bytes written to the part file.
    pub written: nat,
}

/// The course of a download after some reports.
pub open spec fn course(transfer: Transfer, reports: Seq<JobReport>) -> Course
    decreases reports.len(),
{
    if reports.len() == 0 {
        Course {
            stage: transfer.stage,
            events: Seq::empty(),
            part_removed: false,
            renamed: false,
            written: 0,
        }
    } else {
        let before = course(transfer, reports.drop_last());
        let now = Transfer { stage: before.stage, ..transfer };
        let step = job::job_step(now, reports.last());
        Course {
            stage: step.stage,
            events: match step.event {
                Some(event) => before.events.push(event),
                None => before.events,
            },
            part_removed: before.part_removed || step.remove_part,
            renamed: before.renamed || (before.stage is Renaming && reports.last() matches JobReport::Renamed(
                Ok(_),
            )),
            written: match (before.stage, reports.last()) {
                (Stage::Writing { count, .. }, JobReport::Written(Ok(_))) => before.written
                    + count as nat,
                _ => before.written,
            },
        }
    }
}

/// A number of bytes, as far as it can be counted.
pub open spec fn counted(bytes: nat) -> u64 {
    if bytes <= u64::MAX {
        bytes as u64
    } else {
        u64::MAX
    }
}

/// Whether an event ends the job with this index.
pub open spec fn ends(event: Event, index: usize) -> bool {
    match event {
        Event::Finished { index: i, .. } => i == index,
        Event::Skipped { index: i, .. } => i == index,
        Event::Error { index: i, .. } => i == index,
        _ => false,
    }
}

/// Whether an event is about the job with this index.
pub open spec fn belongs(event: Event, index: usize) -> bool {
    match event {
        Event::Started { index: i, .. } => i == index,
        Event::Progress { index: i, .. } => i == index,
        Event::Finished { index: i, .. } => i == index,
        Event::Skipped { index: i, .. } => i == index,
        Event::Error { index: i, .. } => i == index,
        Event::Complete => false,
    }
}

/// How often a job ends in a list of events.
pub open spec fn endings(list: Seq<Event>, index: usize) -> nat {
    list.filter(|event: Event| ends(event, index)).len()
}

/// Whether events tell of a transfer that started and has come to `downloaded` bytes: first the
/// start, then the progress, which grows and does not pass the total.
pub open spec fn streamed(
    transfer: Transfer,
    list: Seq<Event>,
    total_bytes: Option<u64>,
    downloaded: u64,
) -> bool {
    &&& list.len() > 0
    &&& list[0] == (Event::Started {
        index: transfer.index,
        total: transfer.total,
        title: transfer.title@,
        file_name: transfer.file_name@,
        total_bytes,
    })
    &&& forall|i: int|
        0 < i < list.len() ==> {
            &&& #[trigger] list[i] is Progress
            &&& list[i]->Progress_index == transfer.index
            &&& list[i]->Progress_total_bytes == total_bytes
            &&& 0 < list[i]->bytes_downloaded <= downloaded
        }
    &&& forall|i: int, j: int|
        0 < i < j < list.len() ==> (#[trigger] list[i])->bytes_downloaded < (#[trigger] list[j])->bytes_downloaded
            || list[j]->bytes_downloaded == u64::MAX
    &&& downloaded == if list.len() == 1 {
        0
    } else {
        list.last()->bytes_downloaded
    }
    &&& total_bytes matches Some(total) ==> downloaded <= total
}

/// Whether events tell of a transfer that may not even have started.
pub open spec fn told(transfer: Transfer, list: Seq<Event>) -> bool {
    list.len() == 0 || exists|total_bytes: Option<u64>, downloaded: u64|
        streamed(transfer, list, total_bytes, downloaded)
}

/// Whether events tell of a transfer that started and wrote all of the file.
pub open spec fn told_whole(transfer: Transfer, list: Seq<Event>, written: nat) -> bool {
    exists|total_bytes: Option<u64>, downloaded: u64|
        {
            &&& #[trigger] streamed(transfer, list, total_bytes, downloaded)
            &&& total_bytes matches Some(total) ==> downloaded == total
            &&& downloaded == counted(written)
        }
}

/// Whether nothing has happened yet that can be seen.
pub open spec fn idle(course: Course) -> bool {
    course.events.len() == 0 && course.written == 0 && !course.part_removed && !course.renamed
}

/// What holds of every course.
pub open spec fn orderly(transfer: Transfer, course: Course) -> bool {
    let list = course.events;
    match course.stage {
        Stage::Asking => idle(course),
        Stage::Inspecting { .. } => idle(course),
        Stage::Requesting { .. } => idle(course),
        Stage::Creating { total_bytes } => {
            &&& streamed(transfer, list, total_bytes, 0)
            &&& course.written == 0
            &&& !course.part_removed && !course.renamed
        },
        Stage::Reading { total_bytes, downloaded } => {
            &&& streamed(transfer, list, total_bytes, downloaded)
            &&& downloaded == counted(course.written)
            &&& !course.part_removed && !course.renamed
        },
        Stage::Writing { total_bytes, downloaded, count } => {
            &&& exists|before: u64|
                {
                    &&& #[trigger] streamed(transfer, list, total_bytes, before)
                    &&& before < downloaded || downloaded == u64::MAX
                }
            &&& total_bytes matches Some(total) ==> downloaded <= total
            &&& 0 < downloaded
            &&& downloaded == counted(course.written + count as nat)
            &&& !course.part_removed && !course.renamed
        },
        Stage::Flushing { total_bytes, downloaded } => {
            &&& streamed(transfer, list, total_bytes, downloaded)
            &&& total_bytes matches Some(total) ==> downloaded == total
            &&& downloaded == counted(course.written)
            &&& !course.part_removed && !course.renamed
        },
        Stage::Renaming { total_bytes, downloaded } => {
            &&& streamed(transfer, list, total_bytes, downloaded)
            &&& total_bytes matches Some(total) ==> downloaded == total
            &&& downloaded == counted(course.written)
            &&& !course.part_removed && !course.renamed
        },
        Stage::Over => {
            &&& list.len() > 0
            &&& ends(list.last(), transfer.index)
            &&& match list.last() {
                Event::Finished { path, .. } => path == transfer.path@ && told_whole(
                    transfer,
                    list.drop_last(),
                    course.written,
                ) && course.renamed && !course.part_removed,
                Event::Skipped { path, .. } => path == transfer.path@ && list.len() == 1
                    && course.written == 0 && !course.renamed && !course.part_removed,
                _ => told(transfer, list.drop_last()) && !course.renamed && course.part_removed,
            }
        },
    }
}

/// Every download keeps to one course, whatever is reported. It starts once, before any progress.
/// Progress tells how many bytes were written, grows, and never passes the size that was told. It
/// ends once, with its last event: it is finished only when all of the file was written and has
/// taken its place; when it fails, the part file is removed and the target left alone; when it is
/// skipped, both are left alone.
pub proof fn law_downloads_are_orderly(transfer: Transfer, reports: Seq<JobReport>)
    requires
        transfer.stage is Asking,
    ensures
        orderly(transfer, course(transfer, reports)),
    decreases reports.len(),
{
    if reports.len() > 0 {
        law_downloads_are_orderly(transfer, reports.drop_last());
        let before = course(transfer, reports.drop_last());
        let after = course(transfer, reports);
        let now = Transfer { stage: before.stage, ..transfer };
        let step = job::job_step(now, reports.last());
        match before.stage {
            Stage::Over => {},
            Stage::Writing { total_bytes, downloaded, .. } => {
                let d = choose|d: u64|
                    {
                        &&& #[trigger] streamed(transfer, before.events, total_bytes, d)
                        &&& d < downloaded || downloaded == u64::MAX
                    };
                if after.stage is Over {
                    assert(after.events.drop_last() =~= before.events);
                } else if after.stage is Reading {
                    assert(streamed(transfer, after.events, total_bytes, downloaded));
                }
            },
            _ => {
                if after.stage is Over {
                    assert(after.events.drop_last() =~= before.events);
                }
            },
        }
    }
}

/// Whether a report answers the action that a stage asks for.
pub open spec fn answers(stage: Stage, report: JobReport) -> bool {
    match stage {
        Stage::Asking => report is Length,
        Stage::Inspecting { .. } => report is Target,
        Stage::Requesting { .. } => report is Response,
        Stage::Creating { .. } => report is Created,
        Stage::Reading { .. } => report is Read,
        Stage::Writing { .. } => report is Written,
        Stage::Flushing { .. } => report is Flushed,
        Stage::Renaming { .. } => report is Renamed,
        Stage::Over => false,
    }
}

/// A report on the action asked for always leads on; one on anything else changes nothing.
pub proof fn law_answers_lead_on(transfer: Transfer, report: JobReport)
    ensures
        answers(transfer.stage, report) ==> job::job_step(transfer, report).stage
            != transfer.stage,
        !answers(transfer.stage, report) && !(report is Panicked) ==> job::job_step(
            transfer,
            report,
        ) == job::onward(transfer.stage),
{
}

/// Once a download is over, nothing is sent, removed or renamed any more.
pub proof fn law_nothing_follows_the_end(
    transfer: Transfer,
    reports: Seq<JobReport>,
    later: Seq<JobReport>,
)
    requires
        course(transfer, reports).stage is Over,
    ensures
        course(transfer, reports + later) == course(transfer, reports),
    decreases later.len(),
{
    if later.len() == 0 {
        assert(reports + later =~= reports);
    } else {
        law_nothing_follows_the_end(transfer, reports, later.drop_last());
        assert((reports + later).drop_last() =~= reports + later.drop_last());
    }
}

/// Every event of a download is about it, and tells of as many jobs as there are. So none is the
/// end of the queue.
pub proof fn law_downloads_speak_for_themselves(transfer: Transfer, reports: Seq<JobReport>)
    requires
        transfer.stage is Asking,
    ensures
        forall|i: int|
            0 <= i < course(transfer, reports).events.len() ==> {
                let event = #[trigger] course(transfer, reports).events[i];
                &&& belongs(event, transfer.index)
                &&& !(event is Complete)
                &&& event matches Event::Started { total, .. } ==> total == transfer.total
            },
    decreases reports.len(),
{
    if reports.len() > 0 {
        law_downloads_speak_for_themselves(transfer, reports.drop_last());
    }
}

/// A download that is over has ended exactly once; one that is not has not ended.
pub proof fn law_downloads_end_once(transfer: Transfer, reports: Seq<JobReport>)
    requires
        transfer.stage is Asking,
    ensures
        endings(course(transfer, reports).events, transfer.index) == if course(
            transfer,
            reports,
        ).stage is Over {
            1nat
        } else {
            0nat
        },
    decreases reports.len(),
{
    let index = transfer.index;
    let ending = |event: Event| ends(event, index);
    let after = course(transfer, reports);
    reveal(Seq::filter);
    if reports.len() > 0 {
        law_downloads_end_once(transfer, reports.drop_last());
        let before = course(transfer, reports.drop_last());
        if after.events != before.events {
            assert(after.events.drop_last() =~= before.events);
        }
    }
}

/// A download is skipped exactly when the server told the size of the file and the file that is
/// there has that size.
pub proof fn law_skipped_when_sizes_match(
    transfer: Transfer,
    reply: Option<job::LengthReply>,
    size: Option<u64>,
)
    requires
        transfer.stage is Asking,
    ensures
        ({
            let reports = seq![JobReport::Length(reply), JobReport::Target(size)];
            let skipped = Event::Skipped { index: transfer.index, path: transfer.path@ };
            (course(transfer, reports).events == seq![skipped]) == (job::length_told(reply) is Some
                && size == job::length_told(reply))
        }),
{
    let reports = seq![JobReport::Length(reply), JobReport::Target(size)];
    reveal_with_fuel(course, 3);
    assert(reports.drop_last() =~= seq![JobReport::Length(reply)]);
    assert(reports.drop_last().drop_last() =~= Seq::<JobReport>::empty());
    assert(course(transfer, reports.drop_last()).events =~= Seq::<Event>::empty());
    let skipped = Event::Skipped { index: transfer.index, path: transfer.path@ };
    let list = course(transfer, reports).events;
    if job::length_told(reply) is Some && size == job::length_told(reply) {
        assert(list =~= seq![skipped]);
    } else {
        assert(list.len() == 0);
        assert(seq![skipped].len() == 1);
    }
}

/// How often a job has its turn.
pub open spec fn turns_of(turns: Seq<int>, job: int) -> nat {
    turns.filter(|turn: int| turn == job).len()
}

/// Whether `all` is made of the streams of events of some jobs that take these turns: at each
/// turn, the job whose turn it is sends its next event, and in the end each has sent all of its
/// own.
pub open spec fn woven_by(streams: Seq<Seq<Event>>, turns: Seq<int>, all: Seq<Event>) -> bool {
    &&& all.len() == turns.len()
    &&& forall|p: int|
        0 <= p < all.len() ==> {
            let job = #[trigger] turns[p];
            let sent = turns_of(turns.take(p), job);
            &&& 0 <= job < streams.len()
            &&& sent < streams[job].len()
            &&& all[p] == streams[job][sent as int]
        }
    &&& forall|i: int| 0 <= i < streams.len() ==> turns_of(turns, i) == (#[trigger] streams[i]).len()
}

/// Whether `all` is made of the streams of events of some jobs, however they take turns.
pub open spec fn woven(streams: Seq<Seq<Event>>, all: Seq<Event>) -> bool {
    exists|turns: Seq<int>| woven_by(streams, turns, all)
}

/// Whether each stream of events is about the job at its place.
spec fn sorted_out(streams: Seq<Seq<Event>>) -> bool {
    &&& streams.len() <= usize::MAX
    &&& forall|i: int, k: int|
        0 <= i < streams.len() && 0 <= k < streams[i].len() ==> belongs(
            #[trigger] streams[i][k],
            i as usize,
        )
}

/// What was sent up to some turn holds, of each job, the beginning of its stream.
proof fn lemma_sent_so_far(
    streams: Seq<Seq<Event>>,
    turns: Seq<int>,
    all: Seq<Event>,
    count: int,
    job: int,
)
    requires
        sorted_out(streams),
        woven_by(streams, turns, all),
        0 <= count <= all.len(),
        0 <= job < streams.len(),
    ensures
        turns_of(turns.take(count), job) <= streams[job].len(),
        all.take(count).filter(|event: Event| belongs(event, job as usize)) == streams[job].take(
            turns_of(turns.take(count), job) as int,
        ),
    decreases count,
{
    let own = |event: Event| belongs(event, job as usize);
    let mine = |turn: int| turn == job;
    reveal(Seq::filter);
    if count == 0 {
        assert(all.take(0).filter(own) =~= streams[job].take(0));
    } else {
        let p = count - 1;
        lemma_sent_so_far(streams, turns, all, p, job);
        assert(all.take(count).drop_last() =~= all.take(p));
        assert(turns.take(count).drop_last() =~= turns.take(p));
        assert(all.take(count).last() == all[p]);
        assert(turns.take(count).last() == turns[p]);
        let turn = turns[p];
        let sent = turns_of(turns.take(p), turn);
        assert(belongs(streams[turn][sent as int], turn as usize));
        assert(all.take(count).filter(own) =~= streams[job].take(
            turns_of(turns.take(count), job) as int,
        ));
    }
}

/// Of each job, the events of the whole queue are those of its stream, in their order.
proof fn lemma_woven(streams: Seq<Seq<Event>>, all: Seq<Event>, job: int)
    requires
        sorted_out(streams),
        woven(streams, all),
        0 <= job < streams.len(),
    ensures
        all.filter(|event: Event| belongs(event, job as usize)) == streams[job],
{
    let turns = choose|turns: Seq<int>| woven_by(streams, turns, all);
    lemma_sent_so_far(streams, turns, all, all.len() as int, job);
    assert(all.take(all.len() as int) =~= all);
    assert(turns.take(all.len() as int) =~= turns);
    assert(streams[job].take(streams[job].len() as int) =~= streams[job]);
}

/// Every event of the whole queue is one of some job.
proof fn lemma_woven_source(streams: Seq<Seq<Event>>, all: Seq<Event>, p: int) -> (source: (
    int,
    int,
))
    requires
        woven(streams, all),
        0 <= p < all.len(),
    ensures
        0 <= source.0 < streams.len(),
        0 <= source.1 < streams[source.0].len(),
        all[p] == streams[source.0][source.1],
{
    let turns = choose|turns: Seq<int>| woven_by(streams, turns, all);
    let job = turns[p];
    (job, turns_of(turns.take(p), job) as int)
}

/// The streams of events of some downloads.
pub open spec fn streams_of(
    transfers: Seq<Transfer>,
    reports: Seq<Seq<JobReport>>,
) -> Seq<Seq<Event>> {
    Seq::new(transfers.len(), |i: int| course(transfers[i], reports[i]).events)
}

/// Whether the downloads of a queue have all run, from the beginning until they were over.
pub open spec fn run_through(transfers: Seq<Transfer>, reports: Seq<Seq<JobReport>>) -> bool {
    &&& transfers.len() == reports.len() <= usize::MAX
    &&& forall|i: int|
        0 <= i < transfers.len() ==> {
            &&& (#[trigger] transfers[i]).index == i
            &&& transfers[i].stage is Asking
            &&& course(transfers[i], reports[i]).stage is Over
        }
}

/// Whether an event is about one of the first `jobs` jobs.
pub open spec fn of_jobs(event: Event, jobs: nat) -> bool {
    match event {
        Event::Started { index, .. } => index < jobs,
        Event::Progress { index, .. } => index < jobs,
        Event::Finished { index, .. } => index < jobs,
        Event::Skipped { index, .. } => index < jobs,
        Event::Error { index, .. } => index < jobs,
        Event::Complete => false,
    }
}

proof fn lemma_streams_are_sorted_out(transfers: Seq<Transfer>, reports: Seq<Seq<JobReport>>)
    requires
        run_through(transfers, reports),
    ensures
        sorted_out(streams_of(transfers, reports)),
{
    let streams = streams_of(transfers, reports);
    assert forall|i: int, k: int|
        0 <= i < streams.len() && 0 <= k < streams[i].len() implies belongs(
        #[trigger] streams[i][k],
        i as usize,
    ) by {
        assert(transfers[i].index == i && transfers[i].stage is Asking);
        law_downloads_speak_for_themselves(transfers[i], reports[i]);
        assert(belongs(course(transfers[i], reports[i]).events[k], transfers[i].index));
    }
}

/// The events of a queue's jobs are about its jobs only, and tell how many there are.
pub proof fn law_queues_speak_of_their_jobs(
    transfers: Seq<Transfer>,
    reports: Seq<Seq<JobReport>>,
    all: Seq<Event>,
)
    requires
        run_through(transfers, reports),
        woven(streams_of(transfers, reports), all),
    ensures
        forall|p: int|
            0 <= p < all.len() ==> {
                &&& of_jobs(#[trigger] all[p], transfers.len())
                &&& all[p] matches Event::Started { index, total, .. } ==> total
            == transfers[index as int].total
            },
        forall|i: int|
            0 <= i < transfers.len() ==> all.filter(|event: Event| belongs(event, i as usize))
                == course(#[trigger] transfers[i], reports[i]).events,
{
    let streams = streams_of(transfers, reports);
    lemma_streams_are_sorted_out(transfers, reports);
    assert forall|p: int| 0 <= p < all.len() implies {
        &&& of_jobs(#[trigger] all[p], transfers.len())
        &&& all[p] matches Event::Started { index, total, .. } ==> total
            == transfers[index as int].total
    } by {
        let (i, k) = lemma_woven_source(streams, all, p);
        assert(transfers[i].index == i && transfers[i].stage is Asking);
        law_downloads_speak_for_themselves(transfers[i], reports[i]);
        assert(streams[i] == course(transfers[i], reports[i]).events);
        assert(belongs(course(transfers[i], reports[i]).events[k], transfers[i].index));
    }
    assert forall|i: int| 0 <= i < transfers.len() implies all.filter(
        |event: Event| belongs(event, i as usize),
    ) == course(#[trigger] transfers[i], reports[i]).events by {
        lemma_woven(streams, all, i);
    }
}

/// An event that ends a job is about it.
proof fn lemma_endings_of_own_events(all: Seq<Event>, index: usize)
    ensures
        endings(all, index) == endings(
            all.filter(|event: Event| belongs(event, index)),
            index,
        ),
    decreases all.len(),
{
    let own = |event: Event| belongs(event, index);
    let ending = |event: Event| ends(event, index);
    reveal(Seq::filter);
    if all.len() > 0 {
        lemma_endings_of_own_events(all.drop_last(), index);
        let before = all.drop_last().filter(own);
        if own(all.last()) {
            assert(before.push(all.last()).drop_last() =~= before);
        }
    }
}

/// Whether each of the first `jobs` jobs ends exactly once in a list of events, with nothing about
/// it following.
pub open spec fn each_ends_once(list: Seq<Event>, jobs: nat) -> bool {
    &&& forall|i: int| 0 <= i < jobs ==> #[trigger] endings(list, i as usize) == 1
    &&& forall|i: int, p: int, q: int|
        0 <= i < jobs && 0 <= p < q < list.len() && #[trigger] ends(list[p], i as usize)
            ==> !#[trigger] belongs(list[q], i as usize)
}

/// Whether the queue is complete with the last event of a list, and with no other.
pub open spec fn completes_once_at_the_end(list: Seq<Event>) -> bool {
    &&& list.len() > 0
    &&& list.last() == Event::Complete
    &&& forall|p: int| 0 <= p < list.len() - 1 ==> #[trigger] list[p] != Event::Complete
}

/// However the workers of a queue take turns, each job ends exactly once, and nothing about it
/// follows.
pub proof fn law_queues_end_each_job_once(
    transfers: Seq<Transfer>,
    reports: Seq<Seq<JobReport>>,
    all: Seq<Event>,
)
    requires
        run_through(transfers, reports),
        woven(streams_of(transfers, reports), all),
    ensures
        each_ends_once(all, transfers.len()),
{
    law_queues_speak_of_their_jobs(transfers, reports, all);
    assert forall|i: int| 0 <= i < transfers.len() implies #[trigger] endings(all, i as usize)
        == 1 by {
        assert(transfers[i].index == i && transfers[i].stage is Asking);
        lemma_endings_of_own_events(all, i as usize);
        law_downloads_end_once(transfers[i], reports[i]);
    }
    assert forall|i: int, p: int, q: int|
        0 <= i < transfers.len() && 0 <= p < q < all.len() && #[trigger] ends(
            all[p],
            i as usize,
        ) implies !#[trigger] belongs(all[q], i as usize) by {
        if belongs(all[q], i as usize) {
            let own = |event: Event| belongs(event, i as usize);
            let ending = |event: Event| ends(event, i as usize);
            assert(transfers[i].index == i && transfers[i].stage is Asking);
            let stream = course(transfers[i], reports[i]).events;
            assert(all.filter(own) == stream);
            law_downloads_are_orderly(transfers[i], reports[i]);
            law_downloads_end_once(transfers[i], reports[i]);
            let head = all.take(p + 1);
            let rest = all.skip(p + 1);
            assert(head + rest =~= all);
            Seq::filter_distributes_over_add(head, rest, own);
            let first = head.filter(own);
            let second = rest.filter(own);
            assert(rest[q - p - 1] == all[q]);
            rest.lemma_filter_contains(own, q - p - 1);
            assert(second.len() > 0);
            assert(endings(first, i as usize) > 0) by {
                lemma_endings_of_own_events(head, i as usize);
                assert(head[p] == all[p]);
                head.lemma_filter_contains(ending, p);
            }
            assert(endings(second, i as usize) > 0) by {
                assert(second.last() == (first + second).last());
                assert(second[second.len() - 1] == second.last());
                second.lemma_filter_contains(ending, second.len() - 1);
            }
            Seq::filter_distributes_over_add(first, second, ending);
            assert(endings(stream, i as usize) == endings(first, i as usize) + endings(
                second,
                i as usize,
            ));
        }
    }
}

proof fn lemma_complete_ends_no_job(list: Seq<Event>, jobs: nat)
    requires
        jobs <= usize::MAX,
        each_ends_once(list, jobs),
        forall|p: int| 0 <= p < list.len() ==> #[trigger] list[p] != Event::Complete,
    ensures
        each_ends_once(list.push(Event::Complete), jobs),
        completes_once_at_the_end(list.push(Event::Complete)),
{
    let whole = list.push(Event::Complete);
    reveal(Seq::filter);
    assert(whole.drop_last() =~= list);
    assert forall|i: int| 0 <= i < jobs implies #[trigger] endings(whole, i as usize) == 1 by {
        assert(endings(list, i as usize) == 1);
    }
    assert forall|i: int, p: int, q: int|
        0 <= i < jobs && 0 <= p < q < whole.len() && #[trigger] ends(
            whole[p],
            i as usize,
        ) implies !#[trigger] belongs(whole[q], i as usize) by {
        assert(whole[p] == list[p]);
        if q < list.len() {
            assert(whole[q] == list[q]);
            assert(ends(list[p], i as usize));
        }
    }
}

/// The events of a queue, however its workers take turns, and the one that closes it: each job
/// ends exactly once before the queue is complete, nothing about a job follows its end, and the
/// queue is complete once, with the last event.
pub proof fn law_queues_complete_once_at_the_end(
    transfers: Seq<Transfer>,
    reports: Seq<Seq<JobReport>>,
    all: Seq<Event>,
)
    requires
        run_through(transfers, reports),
        woven(streams_of(transfers, reports), all),
    ensures
        each_ends_once(downloader::closed(all), transfers.len()),
        completes_once_at_the_end(downloader::closed(all)),
{
    law_queues_speak_of_their_jobs(transfers, reports, all);
    law_queues_end_each_job_once(transfers, reports, all);
    assert forall|p: int| 0 <= p < all.len() implies #[trigger] all[p] != Event::Complete by {
        assert(of_jobs(all[p], transfers.len()));
    }
    lemma_complete_ends_no_job(all, transfers.len());
}

proof fn lemma_obstacle_ends_job_once(
    obstacle: Obstacle,
    assets: Seq<catalog::Asset>,
    fault: Seq<char>,
    index: usize,
)
    requires
        assets.len() <= usize::MAX,
    ensures
        endings(downloader::errors_for(obstacle, assets, fault), index) == if index
            < assets.len() {
            1nat
        } else {
            0nat
        },
    decreases assets.len(),
{
    let list = downloader::errors_for(obstacle, assets, fault);
    reveal(Seq::filter);
    if assets.len() > 0 {
        lemma_obstacle_ends_job_once(obstacle, assets.drop_last(), fault, index);
        assert(list.drop_last() =~= downloader::errors_for(obstacle, assets.drop_last(), fault));
        let last = (assets.len() - 1) as int;
        assert(list.last() == list[last]);
        assert(list[last]->Error_index == last);
    }
}

/// What keeps a queue from starting ends each of its jobs exactly once, and then the queue, once.
pub proof fn law_obstacles_end_each_job_once(
    obstacle: Obstacle,
    assets: Seq<catalog::Asset>,
    fault: Seq<char>,
)
    requires
        assets.len() <= usize::MAX,
    ensures
        each_ends_once(
            downloader::closed(downloader::errors_for(obstacle, assets, fault)),
            assets.len(),
        ),
        completes_once_at_the_end(
            downloader::closed(downloader::errors_for(obstacle, assets, fault)),
        ),
{
    let list = downloader::errors_for(obstacle, assets, fault);
    assert forall|i: int| 0 <= i < assets.len() implies #[trigger] endings(list, i as usize)
        == 1 by {
        lemma_obstacle_ends_job_once(obstacle, assets, fault, i as usize);
    }
    lemma_complete_ends_no_job(list, assets.len());
}

} // verus!
