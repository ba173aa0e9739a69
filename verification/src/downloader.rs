//! Downloads: the queue of jobs, and the life of one job.

use vstd::prelude::*;

use crate::catalog;
use crate::catalog::WallpaperAsset;
use crate::text;

pub mod course;
pub mod job;
pub mod pool;
pub mod runs;

verus! {

/// What to download, and how.
#[derive(Debug)]
pub struct DownloadPlan {
    pub assets: Vec<WallpaperAsset>,
    /// The directory for the files, as it is shown.
    pub output_dir: String,
    pub threads: usize,
}

/// What happens to a download. Jobs are told apart by their position in the plan.
#[derive(Debug)]
pub enum DownloadEvent {
    Started {
        index: usize,
        total: usize,
        title: String,
        file_name: String,
        total_bytes: Option<u64>,
    },
    Progress { index: usize, bytes_downloaded: u64, total_bytes: Option<u64> },
    Finished { index: usize, path: String },
    Skipped { index: usize, path: String },
    Error { index: usize, message: String },
    Complete,
}

/// The content of a [`DownloadEvent`].
pub enum Event {
    Started {
        index: usize,
        total: usize,
        title: Seq<char>,
        file_name: Seq<char>,
        total_bytes: Option<u64>,
    },
    Progress { index: usize, bytes_downloaded: u64, total_bytes: Option<u64> },
    Finished { index: usize, path: Seq<char> },
    Skipped { index: usize, path: Seq<char> },
    Error { index: usize, message: Seq<char> },
    Complete,
}

impl View for DownloadEvent {
    type V = Event;

    open spec fn view(&self) -> Event {
        match self {
            DownloadEvent::Started { index, total, title, file_name, total_bytes } => Event::Started {
                index: *index,
                total: *total,
                title: title@,
                file_name: file_name@,
                total_bytes: *total_bytes,
            },
            DownloadEvent::Progress { index, bytes_downloaded, total_bytes } => Event::Progress {
                index: *index,
                bytes_downloaded: *bytes_downloaded,
                total_bytes: *total_bytes,
            },
            DownloadEvent::Finished { index, path } => Event::Finished {
                index: *index,
                path: path@,
            },
            DownloadEvent::Skipped { index, path } => Event::Skipped { index: *index, path: path@ },
            DownloadEvent::Error { index, message } => Event::Error {
                index: *index,
                message: message@,
            },
            DownloadEvent::Complete => Event::Complete,
        }
    }
}

/// The contents of a list of events.
pub open spec fn events(list: Seq<DownloadEvent>) -> Seq<Event> {
    Seq::new(list.len(), |i: int| list[i]@)
}

/// The content of an optional event.
pub open spec fn event_option(event: Option<DownloadEvent>) -> Option<Event> {
    match event {
        Some(event) => Some(event@),
        None => None,
    }
}

impl Clone for DownloadPlan {
    fn clone(&self) -> (copy: Self)
        ensures
            copy.assets@ == self.assets@,
            copy.output_dir@ == self.output_dir@,
            copy.threads == self.threads,
    {
        let copy = DownloadPlan {
            assets: self.assets.clone(),
            output_dir: self.output_dir.clone(),
            threads: self.threads,
        };
        assert(copy.assets@ =~= self.assets@);
        copy
    }
}

// ---------------------------------------------------------------------------------------------
// Messages
// ---------------------------------------------------------------------------------------------
/// "`lead` `title`: `fault`".
pub open spec fn fault_text(lead: Seq<char>, title: Seq<char>, fault: Seq<char>) -> Seq<char> {
    lead + title + ": "@ + fault
}

/// "`lead` `title` (`url`): `fault`".
pub open spec fn fault_text_with_url(
    lead: Seq<char>,
    title: Seq<char>,
    url: Seq<char>,
    fault: Seq<char>,
) -> Seq<char> {
    lead + title + " ("@ + url + "): "@ + fault
}

/// The message for a response that is no success.
pub open spec fn status_text(status: Seq<char>, title: Seq<char>, url: Seq<char>) -> Seq<char> {
    "server returned "@ + status + " for "@ + title + " ("@ + url + ")"@
}

/// The message for a response that stops too early.
pub open spec fn short_text(downloaded: u64, total: u64) -> Seq<char> {
    "response ended at "@ + text::decimal(downloaded as nat) + " of "@ + text::decimal(
        total as nat,
    ) + " bytes"@
}

fn write_fault(lead: &str, title: &str, fault: &str) -> (message: String)
    ensures
        message@ == fault_text(lead@, title@, fault@),
{
    let mut message = lead.to_owned();
    message.append(title);
    message.append(": ");
    message.append(fault);
    message
}

pub(crate) fn write_fault_with_url(lead: &str, title: &str, url: &str, fault: &str) -> (message: String)
    ensures
        message@ == fault_text_with_url(lead@, title@, url@, fault@),
{
    let mut message = lead.to_owned();
    message.append(title);
    message.append(" (");
    message.append(url);
    message.append("): ");
    message.append(fault);
    message
}

pub(crate) fn write_status(status: &str, title: &str, url: &str) -> (message: String)
    ensures
        message@ == status_text(status@, title@, url@),
{
    let mut message = "server returned ".to_owned();
    message.append(status);
    message.append(" for ");
    message.append(title);
    message.append(" (");
    message.append(url);
    message.append(")");
    message
}

pub(crate) fn write_short(downloaded: u64, total: u64) -> (message: String)
    ensures
        message@ == short_text(downloaded, total),
{
    let mut message = "response ended at ".to_owned();
    message.append(text::decimal_text(downloaded).as_str());
    message.append(" of ");
    message.append(text::decimal_text(total).as_str());
    message.append(" bytes");
    message
}

/// The event that ends a job with an error.
pub fn send_error(index: usize, message: String) -> (event: DownloadEvent)
    ensures
        event@ == (Event::Error { index, message: message@ }),
{
    DownloadEvent::Error { index, message }
}

/// The event that ends a job whose worker panicked.
pub fn worker_panicked(index: usize) -> (event: DownloadEvent)
    ensures
        event@ == (Event::Error { index, message: "a download worker panicked"@ }),
{
    send_error(index, "a download worker panicked".to_owned())
}

/// The name of the file into which an asset is downloaded before it gets its own name.
pub fn part_name(file_name: &str) -> (name: String)
    ensures
        name@ == file_name@ + ".part"@,
{
    let mut name = file_name.to_owned();
    name.append(".part");
    name
}

// ---------------------------------------------------------------------------------------------
// The queue
// ---------------------------------------------------------------------------------------------
/// What keeps a whole queue from starting.
#[derive(Debug)]
pub enum Obstacle {
    /// The queue's own thread could not be started.
    Thread,
    /// The directory for the files could not be made.
    Directory,
    /// There is no client for the requests.
    Client,
}

/// The message for an asset that an obstacle keeps from being downloaded.
pub open spec fn obstacle_text(
    obstacle: Obstacle,
    asset: catalog::Asset,
    fault: Seq<char>,
) -> Seq<char> {
    match obstacle {
        Obstacle::Thread => fault_text(
            "failed to start download queue for "@,
            asset.title,
            fault,
        ),
        Obstacle::Directory => fault_text("failed to prepare "@, asset.title, fault),
        Obstacle::Client => fault_text_with_url(
            "failed to prepare "@,
            asset.title,
            asset.url,
            fault,
        ),
    }
}

/// One error for each asset, in their order.
pub open spec fn errors_for(
    obstacle: Obstacle,
    assets: Seq<catalog::Asset>,
    fault: Seq<char>,
) -> Seq<Event> {
    Seq::new(
        assets.len(),
        |i: int|
            Event::Error {
                index: i as usize,
                message: obstacle_text(obstacle, assets[i], fault),
            },
    )
}

/// Reports an obstacle for each asset.
pub fn report_obstacle(obstacle: &Obstacle, assets: &Vec<WallpaperAsset>, fault: &str) -> (list: Vec<
    DownloadEvent,
>)
    ensures
        events(list@) == errors_for(*obstacle, catalog::assets(assets@), fault@),
{
    let ghost goal = errors_for(*obstacle, catalog::assets(assets@), fault@);
    let mut list: Vec<DownloadEvent> = Vec::new();
    let mut i: usize = 0;
    while i < assets.len()
        invariant
            i <= assets.len(),
            goal == errors_for(*obstacle, catalog::assets(assets@), fault@),
            events(list@) =~= goal.take(i as int),
        decreases assets.len() - i,
    {
        let title = assets[i].title.as_str();
        let message = match obstacle {
            Obstacle::Thread => write_fault("failed to start download queue for ", title, fault),
            Obstacle::Directory => write_fault("failed to prepare ", title, fault),
            Obstacle::Client => write_fault_with_url(
                "failed to prepare ",
                title,
                assets[i].url.as_str(),
                fault,
            ),
        };
        assert(message@ == obstacle_text(*obstacle, catalog::assets(assets@)[i as int], fault@));
        let ghost before = events(list@);
        list.push(send_error(i, message));
        assert(events(list@) =~= before.push(goal[i as int]));
        i = i + 1;
    }
    assert(goal.take(i as int) =~= goal);
    list
}

/// The events of a whole queue: those of its jobs, and the one that closes it.
pub open spec fn closed(list: Seq<Event>) -> Seq<Event> {
    list.push(Event::Complete)
}

/// The event that closes a queue, after all of its jobs.
pub fn queue_complete() -> (event: DownloadEvent)
    ensures
        event@ == Event::Complete,
{
    DownloadEvent::Complete
}

/// Decides what to send when the queue's own thread was, or was not, started: where it was not, an
/// error for each asset and the end.
pub fn start_downloads(plan: &DownloadPlan, started: Result<(), String>) -> (list: Vec<
    DownloadEvent,
>)
    ensures
        events(list@) == match started {
            Ok(_) => Seq::empty(),
            Err(fault) => closed(
                errors_for(Obstacle::Thread, catalog::assets(plan.assets@), fault@),
            ),
        },
{
    match started {
        Ok(_) => {
            let list: Vec<DownloadEvent> = Vec::new();
            assert(events(list@) =~= Seq::<Event>::empty());
            list
        },
        Err(fault) => {
            let mut list = report_obstacle(&Obstacle::Thread, &plan.assets, fault.as_str());
            let ghost before = events(list@);
            list.push(queue_complete());
            assert(events(list@) =~= closed(before));
            list
        },
    }
}

/// What a queue does next.
#[derive(Debug)]
pub enum QueueStep {
    /// Send these events, and end.
    Report(Vec<DownloadEvent>),
    /// End: there is nothing to do.
    Finish,
    /// Build the client for the requests.
    BuildClient,
    /// Let so many workers share these jobs.
    Work { workers: usize, jobs: Vec<DownloadJob> },
}

/// One asset to download.
#[derive(Debug)]
pub struct DownloadJob {
    pub index: usize,
    pub asset: WallpaperAsset,
}

/// Decides how a queue goes on when the directory for its files was, or was not, made.
pub fn run_downloads(plan: &DownloadPlan, directory: Result<(), String>) -> (step: QueueStep)
    ensures
        match directory {
            Err(fault) => step matches QueueStep::Report(list) && events(list@) == errors_for(
                Obstacle::Directory,
                catalog::assets(plan.assets@),
                fault@,
            ),
            Ok(_) => step == if plan.assets@.len() == 0 {
                QueueStep::Finish
            } else {
                QueueStep::BuildClient
            },
        },
{
    match directory {
        Err(fault) => QueueStep::Report(
            report_obstacle(&Obstacle::Directory, &plan.assets, fault.as_str()),
        ),
        Ok(_) => if plan.assets.len() == 0 {
            QueueStep::Finish
        } else {
            QueueStep::BuildClient
        },
    }
}

/// The number of workers for a queue: as many as asked for, but at least one, and no more than
/// there are jobs.
pub open spec fn worker_limit(threads: nat, jobs: nat) -> nat {
    let asked = if threads == 0 {
        1
    } else {
        threads
    };
    if asked <= jobs {
        asked
    } else {
        jobs
    }
}

/// Counts the workers for a queue.
pub fn worker_count(threads: usize, jobs: usize) -> (count: usize)
    ensures
        count == worker_limit(threads as nat, jobs as nat),
{
    let asked: usize = if threads == 0 {
        1
    } else {
        threads
    };
    if asked <= jobs {
        asked
    } else {
        jobs
    }
}

/// Decides how a queue goes on when the client was, or was not, built: with a job for each asset.
pub fn share_jobs(plan: &DownloadPlan, client: Result<(), String>) -> (step: QueueStep)
    ensures
        match client {
            Err(fault) => step matches QueueStep::Report(list) && events(list@) == errors_for(
                Obstacle::Client,
                catalog::assets(plan.assets@),
                fault@,
            ),
            Ok(_) => {
                &&& step matches QueueStep::Work { workers, jobs }
                &&& workers == worker_limit(plan.threads as nat, plan.assets@.len())
                &&& jobs@.len() == plan.assets@.len()
                &&& forall|i: int|
                    0 <= i < jobs@.len() ==> (#[trigger] jobs@[i]).index == i && jobs@[i].asset
                        == plan.assets@[i]
            },
        },
{
    match client {
        Err(fault) => QueueStep::Report(
            report_obstacle(&Obstacle::Client, &plan.assets, fault.as_str()),
        ),
        Ok(_) => {
            let mut jobs: Vec<DownloadJob> = Vec::new();
            let mut i: usize = 0;
            while i < plan.assets.len()
                invariant
                    i <= plan.assets.len(),
                    jobs@.len() == i,
                    forall|k: int|
                        0 <= k < jobs@.len() ==> (#[trigger] jobs@[k]).index == k && jobs@[k].asset
                            == plan.assets@[k],
                decreases plan.assets.len() - i,
            {
                jobs.push(DownloadJob { index: i, asset: plan.assets[i].clone() });
                i = i + 1;
            }
            let workers = worker_count(plan.threads, plan.assets.len());
            QueueStep::Work { workers, jobs }
        },
    }
}

/// There is a worker where there is a job, never more workers than jobs, and never more than were
/// asked for, unless none was.
pub proof fn law_workers_are_limited(threads: nat, jobs: nat)
    requires
        jobs > 0,
    ensures
        1 <= worker_limit(threads, jobs) <= jobs,
        threads > 0 ==> worker_limit(threads, jobs) <= threads,
{
}

/// As many workers share a queue as were asked for, one where none was, unless there are fewer
/// jobs: then there is one for each.
pub proof fn law_workers_are_as_many_as_asked_for(threads: nat, jobs: nat)
    ensures
        threads == 0 ==> worker_limit(threads, jobs) == worker_limit(1, jobs),
        0 < threads <= jobs ==> worker_limit(threads, jobs) == threads,
        0 < threads && jobs <= threads ==> worker_limit(threads, jobs) == jobs,
{
}

/// What keeps a queue from starting is told once for each asset, in their order: what failed, of
/// which asset, and why.
pub proof fn law_obstacles_are_told_for_each_asset(
    assets: Seq<catalog::Asset>,
    fault: Seq<char>,
    i: int,
)
    requires
        0 <= i < assets.len() <= usize::MAX,
    ensures
        ({
            let thread = errors_for(Obstacle::Thread, assets, fault);
            let directory = errors_for(Obstacle::Directory, assets, fault);
            let client = errors_for(Obstacle::Client, assets, fault);
            let index = i as usize;
            let title = assets[i].title;
            &&& thread.len() == assets.len() && directory.len() == assets.len() && client.len()
                == assets.len()
            &&& thread[i] == (Event::Error {
                index,
                message: "failed to start download queue for "@ + title + ": "@ + fault,
            })
            &&& directory[i] == (Event::Error {
                index,
                message: "failed to prepare "@ + title + ": "@ + fault,
            })
            &&& client[i] == (Event::Error {
                index,
                message: "failed to prepare "@ + title + " ("@ + assets[i].url + "): "@ + fault,
            })
        }),
{
}

/// The queue ends with one event behind all others.
pub proof fn law_queues_are_closed_at_the_end(list: Seq<Event>)
    ensures
        closed(list) == list + seq![Event::Complete],
{
    assert(closed(list) =~= list + seq![Event::Complete]);
}

} // verus!
