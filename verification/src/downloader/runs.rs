//! What comes of a download, by what is reported of it: which reports end it, and in what, and what
//! a run without a fault leaves behind.

use vstd::prelude::*;

use crate::downloader::course;
use crate::downloader::job;
use crate::downloader::job::{JobReport, LengthReply, ResponseHead, Stage, Transfer};
use crate::downloader::Event;
use crate::text;

verus! {

// ---------------------------------------------------------------------------------------------
// One report
// ---------------------------------------------------------------------------------------------
/// Whether a report ends a download that has come this far in a failure: the worker panicked, what
/// was asked for failed, the server refused, or the response has more or fewer bytes than it should
/// have. A response of at least `u64::MAX` bytes is never too long.
pub open spec fn fatal(stage: Stage, report: JobReport) -> bool {
    match report {
        JobReport::Panicked => !(stage is Over),
        JobReport::Length(_) => false,
        JobReport::Target(_) => false,
        JobReport::Response(outcome) => stage is Requesting && match outcome {
            Ok(head) => !head.success,
            Err(_) => true,
        },
        JobReport::Created(outcome) => stage is Creating && outcome is Err,
        JobReport::Read(Err(_)) => stage is Reading,
        JobReport::Read(Ok(count)) => stage matches Stage::Reading {
            total_bytes: Some(total),
            downloaded,
        } && if count == 0 {
            downloaded != total
        } else {
            total < downloaded + count && total < u64::MAX
        },
        JobReport::Written(outcome) => stage is Writing && outcome is Err,
        JobReport::Flushed(outcome) => stage is Flushing && outcome is Err,
        JobReport::Renamed(outcome) => stage is Renaming && outcome is Err,
    }
}

/// A download fails exactly on a report that is a reason to: then it is over, an error is sent, and
/// the part file is removed. On any other report no error is sent and no part file removed.
pub proof fn law_downloads_fail_for_a_reason(transfer: Transfer, report: JobReport)
    ensures
        ({
            let step = job::job_step(transfer, report);
            let error = step.event matches Some(Event::Error { index, .. }) && index
                == transfer.index;
            &&& fatal(transfer.stage, report) ==> step.stage is Over && step.remove_part && error
            &&& !fatal(transfer.stage, report) ==> !step.remove_part && !(step.event matches Some(
                Event::Error { .. },
            ))
        }),
{
}

/// The text of an error: what failed, of which asset, and why.
pub open spec fn complaint(transfer: Transfer, lead: Seq<char>, fault: Seq<char>) -> Seq<char> {
    lead + transfer.title@ + " ("@ + transfer.url@ + "): "@ + fault
}

/// The error of a download that fails tells what failed, of which asset, and why.
pub proof fn law_failures_are_told(transfer: Transfer, report: JobReport)
    requires
        fatal(transfer.stage, report),
    ensures
        ({
            let message = job::job_step(transfer, report).event->0->message;
            match report {
                JobReport::Panicked => message == "a download worker panicked"@,
                JobReport::Response(Ok(head)) => message == "server returned "@ + head.status@
                    + " for "@ + transfer.title@ + " ("@ + transfer.url@ + ")"@,
                JobReport::Response(Err(fault)) => message == complaint(
                    transfer,
                    "failed to request "@,
                    fault@,
                ),
                JobReport::Created(Err(fault)) => message == complaint(
                    transfer,
                    "failed to download "@,
                    fault@,
                ),
                JobReport::Read(Err(fault)) => message == complaint(
                    transfer,
                    "failed to download "@,
                    fault@,
                ),
                JobReport::Read(Ok(count)) => if count == 0 {
                    message == complaint(
                        transfer,
                        "failed to download "@,
                        "response ended at "@ + text::decimal(
                            transfer.stage->Reading_downloaded as nat,
                        ) + " of "@ + text::decimal(
                            transfer.stage->Reading_total_bytes->0 as nat,
                        ) + " bytes"@,
                    )
                } else {
                    message == complaint(
                        transfer,
                        "failed to download "@,
                        "response exceeded its reported size"@,
                    )
                },
                JobReport::Written(Err(fault)) => message == complaint(
                    transfer,
                    "failed to download "@,
                    fault@,
                ),
                JobReport::Flushed(Err(fault)) => message == complaint(
                    transfer,
                    "failed to download "@,
                    fault@,
                ),
                JobReport::Renamed(Err(fault)) => message == complaint(
                    transfer,
                    "failed to finalize "@,
                    fault@,
                ),
                _ => true,
            }
        }),
{
}

/// Whatever the size of the file, bytes that were read and stay within it are written, all of them
/// and no others; then their sum is told and more is read.
pub proof fn law_bytes_within_the_size_are_written(transfer: Transfer, count: usize)
    requires
        transfer.stage is Reading,
        count > 0,
        transfer.stage->Reading_downloaded + count <= u64::MAX,
        transfer.stage->Reading_total_bytes matches Some(total)
            ==> transfer.stage->Reading_downloaded + count <= total,
    ensures
        ({
            let total_bytes = transfer.stage->Reading_total_bytes;
            let sum = (transfer.stage->Reading_downloaded + count) as u64;
            let read = job::job_step(transfer, JobReport::Read(Ok(count)));
            let next = Transfer { stage: read.stage, ..transfer };
            let written = job::job_step(next, JobReport::Written(Ok(())));
            &&& read.event is None
            &&& job::action_at(read.stage) == (job::JobAction::WriteChunk { count })
            &&& written.stage == (Stage::Reading { total_bytes, downloaded: sum })
            &&& written.event == Some(
                Event::Progress { index: transfer.index, bytes_downloaded: sum, total_bytes },
            )
        }),
{
}

/// Each stage of a download asks for the one action that it is about.
pub proof fn law_stages_ask_for_their_actions(
    expected: u64,
    total_bytes: Option<u64>,
    n: u64,
    count: usize,
)
    ensures
        job::action_at(Stage::Asking) == job::JobAction::AskLength,
        job::action_at(Stage::Inspecting { expected }) == job::JobAction::InspectTarget,
        job::action_at(Stage::Requesting { told: total_bytes }) == job::JobAction::Request,
        job::action_at(Stage::Creating { total_bytes }) == job::JobAction::CreatePart,
        job::action_at(Stage::Reading { total_bytes, downloaded: n }) == job::JobAction::ReadChunk,
        job::action_at(Stage::Writing { total_bytes, downloaded: n, count })
            == (job::JobAction::WriteChunk { count }),
        job::action_at(Stage::Flushing { total_bytes, downloaded: n }) == job::JobAction::FlushPart,
        job::action_at(Stage::Renaming { total_bytes, downloaded: n }) == job::JobAction::RenamePart,
        job::action_at(Stage::Over) == job::JobAction::Stop,
{
}

/// Each action that goes well is followed by the next: the size is asked for, then the file that is
/// there is looked at, if a size was told, and the file requested, unless it is there already; the
/// part file is made; bytes are read and written in turn; and when there are no more, the part file
/// is flushed, and then renamed. What is told on the way is the start, the progress and the end.
pub proof fn law_each_action_is_followed_by_the_next(transfer: Transfer, report: JobReport)
    requires
        course::answers(transfer.stage, report),
        !fatal(transfer.stage, report),
    ensures
        ({
            let step = job::job_step(transfer, report);
            let next = job::action_at(step.stage);
            match report {
                JobReport::Length(reply) => {
                    &&& step.event is None
                    &&& next == if job::length_told(reply) is Some {
                        job::JobAction::InspectTarget
                    } else {
                        job::JobAction::Request
                    }
                },
                JobReport::Target(size) => if size == Some(transfer.stage->expected) {
                    &&& step.event == Some(
                        Event::Skipped { index: transfer.index, path: transfer.path@ },
                    )
                    &&& next == job::JobAction::Stop
                } else {
                    step.event is None && next == job::JobAction::Request
                },
                JobReport::Response(_) => step.event is Some && step.event->0 is Started && next
                    == job::JobAction::CreatePart,
                JobReport::Created(_) => step.event is None && next == job::JobAction::ReadChunk,
                JobReport::Read(outcome) => step.event is None && next == if outcome->Ok_0 == 0 {
                    job::JobAction::FlushPart
                } else {
                    job::JobAction::WriteChunk { count: outcome->Ok_0 }
                },
                JobReport::Written(_) => step.event is Some && step.event->0 is Progress && next
                    == job::JobAction::ReadChunk,
                JobReport::Flushed(_) => step.event is None && next == job::JobAction::RenamePart,
                JobReport::Renamed(_) => {
                    &&& step.event == Some(
                        Event::Finished { index: transfer.index, path: transfer.path@ },
                    )
                    &&& next == job::JobAction::Stop
                },
                JobReport::Panicked => false,
            }
        }),
{
}

// ---------------------------------------------------------------------------------------------
// Sizes
// ---------------------------------------------------------------------------------------------
/// A header that writes out a number of bytes declares that number, wherever it fits in 64 bits,
/// with or without a plus sign and with any zeros before it.
pub proof fn law_written_sizes_are_declared(n: nat, zeros: nat)
    ensures
        ({
            let digits = text::repeated('0', zeros) + text::decimal(n);
            let size = if n <= u64::MAX {
                Some(n as u64)
            } else {
                None
            };
            &&& job::declared_length(Some(digits)) == size
            &&& job::declared_length(Some(seq!['+'] + digits)) == size
        }),
{
    let digits = text::repeated('0', zeros) + text::decimal(n);
    text::law_decimals_are_read_back(n, zeros);
    assert((seq!['+'] + digits).drop_first() =~= digits);
}

/// A header that is missing, or empty, or has anything but digits behind a plus sign at most,
/// declares no size.
pub proof fn law_other_headers_declare_nothing(header: Seq<char>, at: int)
    requires
        header.len() == 0 || (0 <= at < header.len() && !('0' <= header[at] <= '9') && (header[at]
            != '+' || at > 0 || header.len() == 1)),
    ensures
        job::declared_length(Some(header)) is None,
        job::declared_length(None) is None,
{
    text::law_only_digits_are_numbers(header, at);
}

/// The size told by an answer counts only if the answer is a success; then it is the declared one.
pub proof fn law_only_successes_tell_a_size(reply: LengthReply)
    ensures
        job::length_told(None) is None,
        job::length_told(Some(reply)) == if reply.success {
            job::declared_length(text::text_option(reply.content_length))
        } else {
            None
        },
{
}

// ---------------------------------------------------------------------------------------------
// Whole runs
// ---------------------------------------------------------------------------------------------
/// The sum of some numbers of bytes.
pub open spec fn sum(counts: Seq<usize>) -> nat
    decreases counts.len(),
{
    if counts.len() == 0 {
        0
    } else {
        sum(counts.drop_last()) + counts.last() as nat
    }
}

/// Reports of reading and writing so many bytes at a time.
pub open spec fn chunks(counts: Seq<usize>) -> Seq<JobReport>
    decreases counts.len(),
{
    if counts.len() == 0 {
        Seq::empty()
    } else {
        chunks(counts.drop_last()).push(JobReport::Read(Ok(counts.last()))).push(
            JobReport::Written(Ok(())),
        )
    }
}

/// Reports of a run in which everything goes well: the server is asked for the size, the file that
/// is there is looked at if a size was told, the file is requested, the part file is made, bytes
/// are read and written until there are no more, and the part file is flushed and renamed.
pub open spec fn smooth_run(
    reply: Option<LengthReply>,
    size: Option<u64>,
    head: ResponseHead,
    counts: Seq<usize>,
) -> Seq<JobReport> {
    seq![JobReport::Length(reply)] + (if job::length_told(reply) is Some {
        seq![JobReport::Target(size)]
    } else {
        Seq::empty()
    }) + seq![JobReport::Response(Ok(head)), JobReport::Created(Ok(()))] + chunks(counts) + seq![
        JobReport::Read(Ok(0)),
        JobReport::Flushed(Ok(())),
        JobReport::Renamed(Ok(())),
    ]
}

/// The size that counts for a response: the one that it declares, else the one that was told
/// before.
pub open spec fn size_in_force(reply: Option<LengthReply>, head: ResponseHead) -> Option<u64> {
    let declared = job::declared_length(text::text_option(head.content_length));
    if declared is Some {
        declared
    } else {
        job::length_told(reply)
    }
}

/// The progress after each of some chunks: the sum of the bytes so far.
pub open spec fn progress_of(index: usize, counts: Seq<usize>, total_bytes: Option<u64>) -> Seq<
    Event,
> {
    Seq::new(
        counts.len(),
        |i: int|
            Event::Progress {
                index,
                bytes_downloaded: course::counted(sum(counts.take(i + 1))),
                total_bytes,
            },
    )
}

proof fn lemma_sum_of_front(counts: Seq<usize>, keep: int)
    requires
        0 <= keep <= counts.len(),
    ensures
        sum(counts.take(keep)) <= sum(counts),
    decreases counts.len(),
{
    if keep == counts.len() {
        assert(counts.take(keep) =~= counts);
    } else {
        lemma_sum_of_front(counts.drop_last(), keep);
        assert(counts.drop_last().take(keep) =~= counts.take(keep));
    }
}

proof fn lemma_one_report(transfer: Transfer, reports: Seq<JobReport>, report: JobReport)
    ensures
        ({
            let before = course::course(transfer, reports);
            let now = Transfer { stage: before.stage, ..transfer };
            let step = job::job_step(now, report);
            let after = course::course(transfer, reports.push(report));
            &&& after.stage == step.stage
            &&& after.events == match step.event {
                Some(event) => before.events.push(event),
                None => before.events,
            }
            &&& after.part_removed == (before.part_removed || step.remove_part)
            &&& after.renamed == (before.renamed || (before.stage is Renaming && report matches
                JobReport::Renamed(Ok(_))))
            &&& after.written == match (before.stage, report) {
                (Stage::Writing { count, .. }, JobReport::Written(Ok(_))) => before.written
                    + count as nat,
                _ => before.written,
            }
        }),
{
    assert(reports.push(report).drop_last() =~= reports);
}

proof fn lemma_chunks_are_written(
    transfer: Transfer,
    start: Seq<JobReport>,
    counts: Seq<usize>,
    total_bytes: Option<u64>,
)
    requires
        course::course(transfer, start).stage == (Stage::Reading { total_bytes, downloaded: 0 }),
        course::course(transfer, start).written == 0,
        forall|i: int| 0 <= i < counts.len() ==> #[trigger] counts[i] > 0,
        total_bytes matches Some(total) ==> sum(counts) <= total,
    ensures
        ({
            let before = course::course(transfer, start);
            let after = course::course(transfer, start + chunks(counts));
            &&& after.stage == (Stage::Reading {
                total_bytes,
                downloaded: course::counted(sum(counts)),
            })
            &&& after.events == before.events + progress_of(transfer.index, counts, total_bytes)
            &&& after.part_removed == before.part_removed
            &&& after.renamed == before.renamed
            &&& after.written == sum(counts)
        }),
    decreases counts.len(),
{
    let before = course::course(transfer, start);
    let events = progress_of(transfer.index, counts, total_bytes);
    if counts.len() == 0 {
        assert(start + chunks(counts) =~= start);
        assert(before.events + events =~= before.events);
    } else {
        let fewer = counts.drop_last();
        let count = counts.last();
        assert forall|i: int| 0 <= i < fewer.len() implies #[trigger] fewer[i] > 0 by {
            assert(fewer[i] == counts[i]);
        }
        assert(counts[counts.len() - 1] > 0);
        lemma_chunks_are_written(transfer, start, fewer, total_bytes);
        let most = start + chunks(fewer);
        let reading = JobReport::Read(Ok(count));
        let writing = JobReport::Written(Ok(()));
        lemma_one_report(transfer, most, reading);
        lemma_one_report(transfer, most.push(reading), writing);
        assert(start + chunks(counts) =~= most.push(reading).push(writing));
        let earlier = progress_of(transfer.index, fewer, total_bytes);
        let last = Event::Progress {
            index: transfer.index,
            bytes_downloaded: course::counted(sum(counts)),
            total_bytes,
        };
        assert(counts.take(counts.len() as int) =~= counts);
        assert forall|i: int| 0 <= i < earlier.len() implies earlier[i] == events[i] by {
            assert(fewer.take(i + 1) =~= counts.take(i + 1));
        }
        assert(events =~= earlier.push(last));
        assert(before.events + events =~= (before.events + earlier).push(last));
    }
}

/// A run in which everything goes well gets the whole file, whatever its size: where the bytes that
/// were read add up to the size that counts, or none is known, the download starts, tells its
/// progress after each chunk, and finishes; every byte that was read is in the part file, and that
/// has taken the place of the target. Nothing is removed and no error sent.
pub proof fn law_smooth_runs_finish(
    transfer: Transfer,
    reply: Option<LengthReply>,
    size: Option<u64>,
    head: ResponseHead,
    counts: Seq<usize>,
)
    requires
        transfer.stage is Asking,
        job::length_told(reply) is Some ==> size != job::length_told(reply),
        head.success,
        forall|i: int| 0 <= i < counts.len() ==> #[trigger] counts[i] > 0,
        size_in_force(reply, head) matches Some(total) ==> sum(counts) == total,
    ensures
        ({
            let total_bytes = size_in_force(reply, head);
            let after = course::course(transfer, smooth_run(reply, size, head, counts));
            let started = Event::Started {
                index: transfer.index,
                total: transfer.total,
                title: transfer.title@,
                file_name: transfer.file_name@,
                total_bytes,
            };
            let finished = Event::Finished { index: transfer.index, path: transfer.path@ };
            &&& after.stage is Over
            &&& after.events == seq![started] + progress_of(transfer.index, counts, total_bytes)
                + seq![finished]
            &&& after.renamed
            &&& !after.part_removed
            &&& after.written == sum(counts)
        }),
{
    let total_bytes = size_in_force(reply, head);
    let asked = Seq::<JobReport>::empty().push(JobReport::Length(reply));
    lemma_one_report(transfer, Seq::empty(), JobReport::Length(reply));
    let looked = if job::length_told(reply) is Some {
        asked.push(JobReport::Target(size))
    } else {
        asked
    };
    lemma_one_report(transfer, asked, JobReport::Target(size));
    let requested = looked.push(JobReport::Response(Ok(head)));
    lemma_one_report(transfer, looked, JobReport::Response(Ok(head)));
    let created = requested.push(JobReport::Created(Ok(())));
    lemma_one_report(transfer, requested, JobReport::Created(Ok(())));
    lemma_chunks_are_written(transfer, created, counts, total_bytes);
    let streamed = created + chunks(counts);
    let read = streamed.push(JobReport::Read(Ok(0)));
    lemma_one_report(transfer, streamed, JobReport::Read(Ok(0)));
    let flushed = read.push(JobReport::Flushed(Ok(())));
    lemma_one_report(transfer, read, JobReport::Flushed(Ok(())));
    lemma_one_report(transfer, flushed, JobReport::Renamed(Ok(())));
    assert(smooth_run(reply, size, head, counts) =~= flushed.push(JobReport::Renamed(Ok(()))));
    let started = Event::Started {
        index: transfer.index,
        total: transfer.total,
        title: transfer.title@,
        file_name: transfer.file_name@,
        total_bytes,
    };
    assert(course::course(transfer, created).events =~= seq![started]);
    let finished = Event::Finished { index: transfer.index, path: transfer.path@ };
    let after = course::course(transfer, smooth_run(reply, size, head, counts));
    assert(after.events =~= seq![started] + progress_of(transfer.index, counts, total_bytes)
        + seq![finished]);
}

/// A report that is a reason to fail ends a run, however it came that far: an error is sent, the
/// part file is removed, and the target is left alone.
pub proof fn law_failed_runs_leave_the_target(
    transfer: Transfer,
    reports: Seq<JobReport>,
    report: JobReport,
)
    requires
        transfer.stage is Asking,
        fatal(course::course(transfer, reports).stage, report),
    ensures
        ({
            let after = course::course(transfer, reports.push(report));
            &&& after.stage is Over
            &&& after.part_removed
            &&& !after.renamed
            &&& after.events.last() is Error
        }),
{
    lemma_one_report(transfer, reports, report);
    course::law_downloads_are_orderly(transfer, reports);
    course::law_downloads_are_orderly(transfer, reports.push(report));
}

/// No error is sent unless there is a reason: where no report of a run is a reason to fail, there
/// is no error among its events and no part file is removed.
pub proof fn law_runs_without_a_fault_send_no_error(transfer: Transfer, reports: Seq<JobReport>)
    requires
        forall|p: int|
            0 <= p < reports.len() ==> !fatal(
                course::course(transfer, reports.take(p)).stage,
                #[trigger] reports[p],
            ),
    ensures
        !course::course(transfer, reports).part_removed,
        forall|i: int|
            0 <= i < course::course(transfer, reports).events.len() ==> !(
            #[trigger] course::course(transfer, reports).events[i] is Error),
    decreases reports.len(),
{
    if reports.len() > 0 {
        let fewer = reports.drop_last();
        let last = reports.len() - 1;
        assert forall|p: int| 0 <= p < fewer.len() implies !fatal(
            course::course(transfer, fewer.take(p)).stage,
            #[trigger] fewer[p],
        ) by {
            assert(fewer.take(p) =~= reports.take(p));
            assert(fewer[p] == reports[p]);
        }
        law_runs_without_a_fault_send_no_error(transfer, fewer);
        assert(reports.take(last) =~= fewer);
        assert(!fatal(course::course(transfer, reports.take(last)).stage, reports[last]));
        let now = Transfer { stage: course::course(transfer, fewer).stage, ..transfer };
        law_downloads_fail_for_a_reason(now, reports.last());
    }
}

} // verus!
