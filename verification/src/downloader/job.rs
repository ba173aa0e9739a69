//! The life of one download.
//!
//! A [`Transfer`] decides; the caller acts. It says which [`JobAction`] comes next, and takes the
//! [`JobReport`] on how that went.

use vstd::prelude::*;

use crate::downloader;
use crate::downloader::{send_error, worker_panicked, write_fault_with_url, write_short};
use crate::downloader::{write_status, DownloadEvent, DownloadJob, Event};
use crate::text;

verus! {

/// How far a download has come.
#[derive(Debug, Clone, Copy, PartialEq, Eq, Structural)]
pub enum Stage {
    /// The server is asked for the size of the file.
    Asking,
    /// The file that is there is compared with that size.
    Inspecting { expected: u64 },
    /// The file is requested.
    Requesting { told: Option<u64> },
    /// The part file is created.
    Creating { total_bytes: Option<u64> },
    /// More of the response is read.
    Reading { total_bytes: Option<u64>, downloaded: u64 },
    /// What was read is written; with it, so much will be downloaded.
    Writing { total_bytes: Option<u64>, downloaded: u64, count: usize },
    /// The part file is flushed.
    Flushing { total_bytes: Option<u64>, downloaded: u64 },
    /// The part file gets its own name.
    Renaming { total_bytes: Option<u64>, downloaded: u64 },
    /// Nothing is left to do.
    Over,
}

/// What is to be done next for a download.
#[derive(Debug, Clone, Copy, PartialEq, Eq, Structural)]
pub enum JobAction {
    AskLength,
    InspectTarget,
    Request,
    CreatePart,
    ReadChunk,
    /// Write the first `count` bytes of what was read last.
    WriteChunk { count: usize },
    FlushPart,
    RenamePart,
    Stop,
}

/// An answer to the question for the size of a file.
#[derive(Debug)]
pub struct LengthReply {
    pub success: bool,
    /// The `Content-Length` header, if there is one and it is text.
    pub content_length: Option<String>,
}

/// The head of the response to a request for a file.
#[derive(Debug)]
pub struct ResponseHead {
    pub success: bool,
    pub status: String,
    /// The `Content-Length` header, if there is one and it is text.
    pub content_length: Option<String>,
}

/// What came of an action. A fault is given by its message.
#[derive(Debug)]
pub enum JobReport {
    /// The answer to [`JobAction::AskLength`], if there was one.
    Length(Option<LengthReply>),
    /// The size of the file at the target, if there is a file.
    Target(Option<u64>),
    Response(Result<ResponseHead, String>),
    Created(Result<(), String>),
    /// The number of bytes that were read; none means that the response is at its end.
    Read(Result<usize, String>),
    Written(Result<(), String>),
    Flushed(Result<(), String>),
    Renamed(Result<(), String>),
    /// The worker panicked, whatever it was doing.
    Panicked,
}

/// What the caller is to do, in the order of the fields.
#[derive(Debug)]
pub struct JobOrder {
    /// Remove the part file.
    pub remove_part: bool,
    /// Send this event.
    pub event: Option<DownloadEvent>,
    /// Then do this, and report.
    pub action: JobAction,
}

/// A download and how far it has come.
#[derive(Debug)]
pub struct Transfer {
    pub index: usize,
    /// The number of jobs in the queue.
    pub total: usize,
    pub title: String,
    pub url: String,
    pub file_name: String,
    /// Where the file goes, as it is shown.
    pub path: String,
    pub stage: Stage,
}

/// The action that a stage asks for.
pub open spec fn action_at(stage: Stage) -> JobAction {
    match stage {
        Stage::Asking => JobAction::AskLength,
        Stage::Inspecting { .. } => JobAction::InspectTarget,
        Stage::Requesting { .. } => JobAction::Request,
        Stage::Creating { .. } => JobAction::CreatePart,
        Stage::Reading { .. } => JobAction::ReadChunk,
        Stage::Writing { count, .. } => JobAction::WriteChunk { count },
        Stage::Flushing { .. } => JobAction::FlushPart,
        Stage::Renaming { .. } => JobAction::RenamePart,
        Stage::Over => JobAction::Stop,
    }
}

/// The size that a `Content-Length` header declares, where it is a number of 64 bits.
pub open spec fn declared_length(header: Option<Seq<char>>) -> Option<u64> {
    match header {
        Some(digits) => match text::unsigned_value(digits) {
            Some(n) if n <= u64::MAX => Some(n as u64),
            _ => None,
        },
        None => None,
    }
}

/// Reads the size that a `Content-Length` header declares.
pub fn declared_content_length(header: &Option<String>) -> (length: Option<u64>)
    ensures
        length == declared_length(text::text_option(*header)),
{
    match header {
        Some(digits) => text::parse_unsigned(digits.as_str()),
        None => None,
    }
}

/// The size of a file, as the answer of a server gives it: only a success counts.
pub open spec fn length_told(reply: Option<LengthReply>) -> Option<u64> {
    match reply {
        Some(reply) if reply.success => declared_length(text::text_option(reply.content_length)),
        _ => None,
    }
}

/// Reads the size of a file from the answer of a server.
pub fn remote_length(reply: &Option<LengthReply>) -> (length: Option<u64>)
    ensures
        length == length_told(*reply),
{
    match reply {
        Some(reply) => if reply.success {
            declared_content_length(&reply.content_length)
        } else {
            None
        },
        None => None,
    }
}

/// Tells whether the file that is there, if any, is the one that the server has: both have the
/// same known size.
pub fn is_up_to_date(size: Option<u64>, expected_length: Option<u64>) -> (current: bool)
    ensures
        current == (expected_length is Some && size == expected_length),
{
    match (size, expected_length) {
        (Some(size), Some(expected)) => size == expected,
        _ => false,
    }
}

/// One step of a download.
#[verifier::ext_equal]
pub struct Step {
    pub stage: Stage,
    pub event: Option<Event>,
    pub remove_part: bool,
}

/// The step that goes on to `stage` and says nothing.
pub open spec fn onward(stage: Stage) -> Step {
    Step { stage, event: None, remove_part: false }
}

/// The step that ends a download with an error.
pub open spec fn failed(job: Transfer, message: Seq<char>) -> Step {
    Step {
        stage: Stage::Over,
        event: Some(Event::Error { index: job.index, message }),
        remove_part: true,
    }
}

/// The step that ends a download with an error about its asset.
pub open spec fn failed_asset(job: Transfer, lead: Seq<char>, fault: Seq<char>) -> Step {
    failed(job, downloader::fault_text_with_url(lead, job.title@, job.url@, fault))
}

/// The step after `count` more bytes were read.
pub open spec fn step_after_read(
    job: Transfer,
    total_bytes: Option<u64>,
    downloaded: u64,
    count: usize,
) -> Step {
    if count == 0 {
        match total_bytes {
            Some(total) if downloaded != total => failed_asset(
                job,
                "failed to download "@,
                downloader::short_text(downloaded, total),
            ),
            _ => onward(Stage::Flushing { total_bytes, downloaded }),
        }
    } else {
        let sum = if downloaded + count <= u64::MAX {
            (downloaded + count) as u64
        } else {
            u64::MAX
        };
        match total_bytes {
            Some(total) if sum > total => failed_asset(
                job,
                "failed to download "@,
                "response exceeded its reported size"@,
            ),
            _ => onward(Stage::Writing { total_bytes, downloaded: sum, count }),
        }
    }
}

/// The step of a download whose file is being written.
pub open spec fn stream_step(job: Transfer, report: JobReport) -> Step {
    match (job.stage, report) {
        (Stage::Creating { total_bytes }, JobReport::Created(Ok(_))) => onward(
            Stage::Reading { total_bytes, downloaded: 0 },
        ),
        (Stage::Creating { .. }, JobReport::Created(Err(fault))) => failed_asset(
            job,
            "failed to download "@,
            fault@,
        ),
        (Stage::Reading { total_bytes, downloaded }, JobReport::Read(Ok(count))) => step_after_read(
            job,
            total_bytes,
            downloaded,
            count,
        ),
        (Stage::Reading { .. }, JobReport::Read(Err(fault))) => failed_asset(
            job,
            "failed to download "@,
            fault@,
        ),
        (Stage::Writing { total_bytes, downloaded, .. }, JobReport::Written(Ok(_))) => Step {
            stage: Stage::Reading { total_bytes, downloaded },
            event: Some(
                Event::Progress { index: job.index, bytes_downloaded: downloaded, total_bytes },
            ),
            remove_part: false,
        },
        (Stage::Writing { .. }, JobReport::Written(Err(fault))) => failed_asset(
            job,
            "failed to download "@,
            fault@,
        ),
        (Stage::Flushing { total_bytes, downloaded }, JobReport::Flushed(Ok(_))) => onward(
            Stage::Renaming { total_bytes, downloaded },
        ),
        (Stage::Flushing { .. }, JobReport::Flushed(Err(fault))) => failed_asset(
            job,
            "failed to download "@,
            fault@,
        ),
        _ => onward(job.stage),
    }
}

/// The step of a download on a report. A report that does not answer the action asked for changes
/// nothing.
pub open spec fn job_step(job: Transfer, report: JobReport) -> Step {
    match (job.stage, report) {
        (Stage::Over, _) => onward(Stage::Over),
        (_, JobReport::Panicked) => failed(job, "a download worker panicked"@),
        (Stage::Asking, JobReport::Length(reply)) => onward(
            match length_told(reply) {
                Some(expected) => Stage::Inspecting { expected },
                None => Stage::Requesting { told: None },
            },
        ),
        (Stage::Inspecting { expected }, JobReport::Target(size)) => if size == Some(expected) {
            Step {
                stage: Stage::Over,
                event: Some(Event::Skipped { index: job.index, path: job.path@ }),
                remove_part: false,
            }
        } else {
            onward(Stage::Requesting { told: Some(expected) })
        },
        (Stage::Requesting { .. }, JobReport::Response(Err(fault))) => failed_asset(
            job,
            "failed to request "@,
            fault@,
        ),
        (Stage::Requesting { told }, JobReport::Response(Ok(head))) => if !head.success {
            failed(job, downloader::status_text(head.status@, job.title@, job.url@))
        } else {
            let total_bytes = match declared_length(text::text_option(head.content_length)) {
                Some(length) => Some(length),
                None => told,
            };
            Step {
                stage: Stage::Creating { total_bytes },
                event: Some(
                    Event::Started {
                        index: job.index,
                        total: job.total,
                        title: job.title@,
                        file_name: job.file_name@,
                        total_bytes,
                    },
                ),
                remove_part: false,
            }
        },
        (Stage::Renaming { .. }, JobReport::Renamed(Ok(_))) => Step {
            stage: Stage::Over,
            event: Some(Event::Finished { index: job.index, path: job.path@ }),
            remove_part: false,
        },
        (Stage::Renaming { .. }, JobReport::Renamed(Err(fault))) => failed_asset(
            job,
            "failed to finalize "@,
            fault@,
        ),
        _ => stream_step(job, report),
    }
}

impl Transfer {
    /// A download that has not begun.
    pub fn new(total: usize, job: DownloadJob, path: String) -> (transfer: Transfer)
        ensures
            transfer.index == job.index,
            transfer.total == total,
            transfer.title == job.asset.title,
            transfer.url == job.asset.url,
            transfer.file_name == job.asset.file_name,
            transfer.path == path,
            transfer.stage == Stage::Asking,
    {
        Transfer {
            index: job.index,
            total,
            title: job.asset.title,
            url: job.asset.url,
            file_name: job.asset.file_name,
            path,
            stage: Stage::Asking,
        }
    }

    /// The action that comes next.
    pub fn action(&self) -> (action: JobAction)
        ensures
            action == action_at(self.stage),
    {
        match self.stage {
            Stage::Asking => JobAction::AskLength,
            Stage::Inspecting { .. } => JobAction::InspectTarget,
            Stage::Requesting { .. } => JobAction::Request,
            Stage::Creating { .. } => JobAction::CreatePart,
            Stage::Reading { .. } => JobAction::ReadChunk,
            Stage::Writing { count, .. } => JobAction::WriteChunk { count },
            Stage::Flushing { .. } => JobAction::FlushPart,
            Stage::Renaming { .. } => JobAction::RenamePart,
            Stage::Over => JobAction::Stop,
        }
    }

    /// Goes on to `stage`.
    fn go_on(&mut self, stage: Stage, event: Option<DownloadEvent>) -> (order: JobOrder)
        ensures
            *final(self) == (Transfer { stage, ..*old(self) }),
            order.event == event,
            !order.remove_part,
            order.action == action_at(stage),
    {
        self.stage = stage;
        JobOrder { remove_part: false, event, action: self.action() }
    }

    /// Ends with an error.
    fn fail(&mut self, event: DownloadEvent) -> (order: JobOrder)
        ensures
            *final(self) == (Transfer { stage: Stage::Over, ..*old(self) }),
            order.event == Some(event),
            order.remove_part,
            order.action == JobAction::Stop,
    {
        self.stage = Stage::Over;
        JobOrder { remove_part: true, event: Some(event), action: JobAction::Stop }
    }

    /// Ends with an error about the asset.
    fn fail_asset(&mut self, lead: &str, fault: &str) -> (order: JobOrder)
        ensures
            *final(self) == (Transfer { stage: Stage::Over, ..*old(self) }),
            downloader::event_option(order.event) == failed_asset(*old(self), lead@, fault@).event,
            order.remove_part,
            order.action == JobAction::Stop,
    {
        let message = write_fault_with_url(lead, self.title.as_str(), self.url.as_str(), fault);
        self.fail(send_error(self.index, message))
    }

    /// Goes on after `count` more bytes were read.
    fn take_chunk(&mut self, total_bytes: Option<u64>, downloaded: u64, count: usize) -> (order:
        JobOrder)
        ensures
            ({
                let step = step_after_read(*old(self), total_bytes, downloaded, count);
                &&& *final(self) == (Transfer { stage: step.stage, ..*old(self) })
                &&& downloader::event_option(order.event) == step.event
                &&& order.remove_part == step.remove_part
                &&& order.action == action_at(step.stage)
            }),
    {
        if count == 0 {
            if let Some(total) = total_bytes {
                if downloaded != total {
                    let fault = write_short(downloaded, total);
                    return self.fail_asset("failed to download ", fault.as_str());
                }
            }
            return self.go_on(Stage::Flushing { total_bytes, downloaded }, None);
        }
        let sum = downloaded.saturating_add(count as u64);
        if let Some(total) = total_bytes {
            if sum > total {
                return self.fail_asset(
                    "failed to download ",
                    "response exceeded its reported size",
                );
            }
        }
        self.go_on(Stage::Writing { total_bytes, downloaded: sum, count }, None)
    }

    /// Takes a report while the file is being written.
    pub fn download_stream(&mut self, report: JobReport) -> (order: JobOrder)
        ensures
            ({
                let step = stream_step(*old(self), report);
                &&& *final(self) == (Transfer { stage: step.stage, ..*old(self) })
                &&& downloader::event_option(order.event) == step.event
                &&& order.remove_part == step.remove_part
                &&& order.action == action_at(step.stage)
            }),
    {
        let stage = self.stage;
        match (stage, report) {
            (Stage::Creating { total_bytes }, JobReport::Created(outcome)) => match outcome {
                Ok(_) => self.go_on(Stage::Reading { total_bytes, downloaded: 0 }, None),
                Err(fault) => self.fail_asset("failed to download ", fault.as_str()),
            },
            (Stage::Reading { total_bytes, downloaded }, JobReport::Read(outcome)) => match outcome {
                Ok(count) => self.take_chunk(total_bytes, downloaded, count),
                Err(fault) => self.fail_asset("failed to download ", fault.as_str()),
            },
            (Stage::Writing { total_bytes, downloaded, .. }, JobReport::Written(outcome)) => {
                match outcome {
                    Ok(_) => {
                        let event = DownloadEvent::Progress {
                            index: self.index,
                            bytes_downloaded: downloaded,
                            total_bytes,
                        };
                        self.go_on(Stage::Reading { total_bytes, downloaded }, Some(event))
                    },
                    Err(fault) => self.fail_asset("failed to download ", fault.as_str()),
                }
            },
            (Stage::Flushing { total_bytes, downloaded }, JobReport::Flushed(outcome)) => {
                match outcome {
                    Ok(_) => self.go_on(Stage::Renaming { total_bytes, downloaded }, None),
                    Err(fault) => self.fail_asset("failed to download ", fault.as_str()),
                }
            },
            _ => self.go_on(stage, None),
        }
    }

    /// Takes a report, and says what to do.
    pub fn process_job(&mut self, report: JobReport) -> (order: JobOrder)
        ensures
            ({
                let step = job_step(*old(self), report);
                &&& *final(self) == (Transfer { stage: step.stage, ..*old(self) })
                &&& downloader::event_option(order.event) == step.event
                &&& order.remove_part == step.remove_part
                &&& order.action == action_at(step.stage)
            }),
    {
        let stage = self.stage;
        match (stage, report) {
            (Stage::Over, _) => self.go_on(Stage::Over, None),
            (_, JobReport::Panicked) => self.fail(worker_panicked(self.index)),
            (Stage::Asking, JobReport::Length(reply)) => match remote_length(&reply) {
                Some(expected) => self.go_on(Stage::Inspecting { expected }, None),
                None => self.go_on(Stage::Requesting { told: None }, None),
            },
            (Stage::Inspecting { expected }, JobReport::Target(size)) => {
                if is_up_to_date(size, Some(expected)) {
                    let event = DownloadEvent::Skipped {
                        index: self.index,
                        path: self.path.clone(),
                    };
                    self.go_on(Stage::Over, Some(event))
                } else {
                    self.go_on(Stage::Requesting { told: Some(expected) }, None)
                }
            },
            (Stage::Requesting { told }, JobReport::Response(outcome)) => match outcome {
                Err(fault) => self.fail_asset("failed to request ", fault.as_str()),
                Ok(head) => {
                    if !head.success {
                        let message = write_status(
                            head.status.as_str(),
                            self.title.as_str(),
                            self.url.as_str(),
                        );
                        return self.fail(send_error(self.index, message));
                    }
                    let total_bytes = match declared_content_length(&head.content_length) {
                        Some(length) => Some(length),
                        None => told,
                    };
                    let event = DownloadEvent::Started {
                        index: self.index,
                        total: self.total,
                        title: self.title.clone(),
                        file_name: self.file_name.clone(),
                        total_bytes,
                    };
                    self.go_on(Stage::Creating { total_bytes }, Some(event))
                },
            },
            (Stage::Renaming { .. }, JobReport::Renamed(outcome)) => match outcome {
                Ok(_) => {
                    let event = DownloadEvent::Finished {
                        index: self.index,
                        path: self.path.clone(),
                    };
                    self.go_on(Stage::Over, Some(event))
                },
                Err(fault) => self.fail_asset("failed to finalize ", fault.as_str()),
            },
            (_, report) => self.download_stream(report),
        }
    }
}

} // verus!
