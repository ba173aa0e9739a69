use std::collections::{BTreeMap, BTreeSet};

use awm::catalog::WallpaperAsset;
use awm::downloader::job::{
    declared_content_length, is_up_to_date, remote_length, JobAction, JobReport, LengthReply,
    ResponseHead, Stage, Transfer,
};
use awm::downloader::pool::WorkPool;
use awm::downloader::{
    part_name, queue_complete, run_downloads, send_error, share_jobs, start_downloads, worker_count,
    worker_panicked, DownloadEvent, DownloadJob, DownloadPlan, QueueStep,
};

/// The files of a directory in memory.
#[derive(Default)]
struct Disk {
    files: BTreeMap<String, Vec<u8>>,
    directories: BTreeSet<String>,
}

/// A server in memory, which answers every request alike.
#[derive(Clone)]
struct Server {
    body: Vec<u8>,
    length: Option<u64>,
    status: &'static str,
}

impl Server {
    fn new(body: &[u8], length: Option<u64>, status: &'static str) -> Self {
        Server { body: body.to_vec(), length, status }
    }

    fn success(&self) -> bool {
        self.status.starts_with('2')
    }

    fn header(&self) -> Option<String> {
        self.length.map(|length| length.to_string())
    }
}

fn wallpaper_asset(file_name: &str) -> WallpaperAsset {
    WallpaperAsset {
        id: "sample".to_owned(),
        title: "Sample".to_owned(),
        description: None,
        url: "http://server/sample.mov".to_owned(),
        file_name: file_name.to_owned(),
        extension: ".mov".to_owned(),
    }
}

fn plan(assets: Vec<WallpaperAsset>, threads: usize) -> DownloadPlan {
    DownloadPlan { assets, output_dir: "out".to_owned(), threads }
}

/// Does what a transfer asks for, on the disk and the server.
fn run_job(total: usize, job: DownloadJob, server: &Server, disk: &mut Disk) -> Vec<DownloadEvent> {
    let target = job.asset.file_name.clone();
    let part = part_name(&target);
    let path = format!("out/{target}");
    let mut transfer = Transfer::new(total, job, path);
    let mut events = Vec::new();
    let mut sent = 0;
    let mut chunk: Vec<u8> = Vec::new();
    let mut action = transfer.action();
    while action != JobAction::Stop {
        let report = match action {
            JobAction::AskLength => JobReport::Length(Some(LengthReply {
                success: server.success(),
                content_length: server.header(),
            })),
            JobAction::InspectTarget => {
                JobReport::Target(disk.files.get(&target).map(|bytes| bytes.len() as u64))
            }
            JobAction::Request => JobReport::Response(Ok(ResponseHead {
                success: server.success(),
                status: server.status.to_owned(),
                content_length: server.header(),
            })),
            JobAction::CreatePart => {
                disk.files.insert(part.clone(), Vec::new());
                JobReport::Created(Ok(()))
            }
            JobAction::ReadChunk => {
                let end = server.body.len().min(sent + 64 * 1024);
                chunk = server.body[sent..end].to_vec();
                sent = end;
                JobReport::Read(Ok(chunk.len()))
            }
            JobAction::WriteChunk { count } => {
                disk.files.get_mut(&part).unwrap().extend_from_slice(&chunk[..count]);
                JobReport::Written(Ok(()))
            }
            JobAction::FlushPart => JobReport::Flushed(Ok(())),
            JobAction::RenamePart => {
                if disk.directories.contains(&target) {
                    JobReport::Renamed(Err("Is a directory".to_owned()))
                } else {
                    let bytes = disk.files.remove(&part).unwrap();
                    disk.files.insert(target.clone(), bytes);
                    JobReport::Renamed(Ok(()))
                }
            }
            JobAction::Stop => unreachable!(),
        };
        let order = transfer.process_job(report);
        if order.remove_part {
            disk.files.remove(&part);
        }
        if let Some(event) = order.event {
            events.push(event);
        }
        action = order.action;
    }
    assert_eq!(transfer.stage, Stage::Over);
    events
}

/// Runs a queue, one job after another.
fn run_queue(plan: &DownloadPlan, servers: &[Server], disk: &mut Disk) -> Vec<DownloadEvent> {
    let mut events = start_downloads(plan, Ok(()));
    assert!(events.is_empty());
    if let QueueStep::BuildClient = run_downloads(plan, Ok(())) {
        if let QueueStep::Work { workers, jobs } = share_jobs(plan, Ok(())) {
            assert!(workers >= 1 && workers <= jobs.len());
            let total = jobs.len();
            for (job, server) in jobs.into_iter().zip(servers) {
                events.extend(run_job(total, job, server, disk));
            }
        }
    }
    events.push(queue_complete());
    events
}

fn terminal_index(event: &DownloadEvent) -> Option<usize> {
    match event {
        DownloadEvent::Finished { index, .. }
        | DownloadEvent::Skipped { index, .. }
        | DownloadEvent::Error { index, .. } => Some(*index),
        _ => None,
    }
}

#[test]
fn downloads_one_asset_through_observable_queue() {
    let body = (0..(128 * 1024 + 17)).map(|index| (index % 251) as u8).collect::<Vec<_>>();
    let server = Server::new(&body, Some(body.len() as u64), "200 OK");
    let mut disk = Disk::default();
    let events = run_queue(&plan(vec![wallpaper_asset("sample.mov")], 0), &[server], &mut disk);

    assert_eq!(disk.files["sample.mov"], body);
    assert!(!disk.files.contains_key("sample.mov.part"));
    assert!(matches!(events.first(), Some(DownloadEvent::Started { .. })));
    let progress = events
        .iter()
        .filter_map(|event| match event {
            DownloadEvent::Progress { bytes_downloaded, total_bytes, .. } => {
                Some((*bytes_downloaded, *total_bytes))
            }
            _ => None,
        })
        .collect::<Vec<_>>();
    assert!(progress.len() >= 2);
    assert!(progress.windows(2).all(|pair| pair[0].0 < pair[1].0));
    assert!(progress.iter().all(|(bytes, total)| {
        *total == Some(body.len() as u64) && *bytes <= body.len() as u64
    }));
    assert_eq!(progress.last().map(|(bytes, _)| *bytes), Some(body.len() as u64));
    assert!(events.iter().any(|event| matches!(event, DownloadEvent::Finished { .. })));
    assert!(matches!(events.last(), Some(DownloadEvent::Complete)));
}

#[test]
fn replaces_existing_asset_when_remote_size_differs() {
    let body = b"new-wallpaper".to_vec();
    let server = Server::new(&body, Some(body.len() as u64), "200 OK");
    let mut disk = Disk::default();
    disk.files.insert("sample.mov".to_owned(), b"stale".to_vec());
    let events = run_queue(&plan(vec![wallpaper_asset("sample.mov")], 1), &[server], &mut disk);

    assert_eq!(disk.files["sample.mov"], body);
    assert!(!disk.files.contains_key("sample.mov.part"));
    assert!(events.iter().any(|event| matches!(event, DownloadEvent::Finished { .. })));
    assert!(!events.iter().any(|event| matches!(event, DownloadEvent::Skipped { .. })));
}

#[test]
fn skips_existing_asset_only_when_remote_size_matches() {
    let body = b"already-complete".to_vec();
    let server = Server::new(&body, Some(body.len() as u64), "200 OK");
    let mut disk = Disk::default();
    disk.files.insert("sample.mov".to_owned(), body);
    let events = run_queue(&plan(vec![wallpaper_asset("sample.mov")], 1), &[server], &mut disk);

    assert!(matches!(
        events.as_slice(),
        [DownloadEvent::Skipped { .. }, DownloadEvent::Complete]
    ));
    assert!(matches!(&events[0], DownloadEvent::Skipped { index: 0, path } if path == "out/sample.mov"));
}

#[test]
fn downloads_existing_asset_again_when_remote_size_is_unknown() {
    let body = b"fresh-unknown-size".to_vec();
    let server = Server::new(&body, None, "200 OK");
    let mut disk = Disk::default();
    disk.files.insert("sample.mov".to_owned(), b"stale".to_vec());
    let events = run_queue(&plan(vec![wallpaper_asset("sample.mov")], 1), &[server], &mut disk);

    assert_eq!(disk.files["sample.mov"], body);
    assert!(events
        .iter()
        .any(|event| matches!(event, DownloadEvent::Started { total_bytes: None, .. })));
    assert!(events.iter().any(|event| matches!(
        event,
        DownloadEvent::Progress { bytes_downloaded, total_bytes: None, .. }
            if *bytes_downloaded > 0
    )));
    assert!(events.iter().any(|event| matches!(event, DownloadEvent::Finished { .. })));
    assert!(!disk.files.contains_key("sample.mov.part"));
}

#[test]
fn failed_asset_emits_error_and_does_not_stop_other_assets() {
    let failed = Server::new(b"", None, "500 Internal Server Error");
    let body = b"successful".to_vec();
    let successful = Server::new(&body, Some(body.len() as u64), "200 OK");
    let mut disk = Disk::default();
    let mut successful_asset = wallpaper_asset("successful.mov");
    successful_asset.id = "successful".to_owned();
    let events = run_queue(
        &plan(vec![wallpaper_asset("sample.mov"), successful_asset], 2),
        &[failed, successful],
        &mut disk,
    );

    assert!(events.iter().any(|event| matches!(
        event,
        DownloadEvent::Error { index: 0, message } if message.contains("500")
    )));
    assert!(events
        .iter()
        .any(|event| matches!(event, DownloadEvent::Finished { index: 1, .. })));
    assert_eq!(
        events.iter().filter(|event| matches!(event, DownloadEvent::Complete)).count(),
        1
    );
    assert_eq!(disk.files["successful.mov"], body);
}

#[test]
fn interrupted_replacement_cleans_part_and_preserves_target() {
    let advertised_size = 32;
    let server = Server::new(b"short", Some(advertised_size), "200 OK");
    let mut disk = Disk::default();
    disk.files.insert("sample.mov".to_owned(), b"previous-complete-wallpaper".to_vec());
    let events = run_queue(&plan(vec![wallpaper_asset("sample.mov")], 1), &[server], &mut disk);

    assert!(events.iter().any(|event| matches!(event, DownloadEvent::Error { index: 0, .. })));
    assert!(events.iter().any(|event| matches!(
        event,
        DownloadEvent::Error { message, .. }
            if message == "failed to download Sample (http://server/sample.mov): \
                response ended at 5 of 32 bytes"
    )));
    assert_eq!(disk.files["sample.mov"], b"previous-complete-wallpaper");
    assert!(!disk.files.contains_key("sample.mov.part"));
}

#[test]
fn finalization_failure_cleans_part_without_destroying_target() {
    let body = b"replacement".to_vec();
    let server = Server::new(&body, Some(body.len() as u64), "200 OK");
    let mut disk = Disk::default();
    disk.directories.insert("sample.mov".to_owned());
    let events = run_queue(&plan(vec![wallpaper_asset("sample.mov")], 1), &[server], &mut disk);

    assert!(events.iter().any(|event| matches!(event, DownloadEvent::Error { index: 0, message } if message.contains("finalize"))));
    assert!(disk.directories.contains("sample.mov"));
    assert!(!disk.files.contains_key("sample.mov.part"));
}

#[test]
fn filesystem_setup_failure_is_an_asset_error() {
    let plan = plan(vec![wallpaper_asset("sample.mov")], 0);
    let step = run_downloads(&plan, Err("Not a directory".to_owned()));
    let QueueStep::Report(mut events) = step else {
        panic!("the queue went on");
    };
    events.push(queue_complete());

    assert!(matches!(
        events.as_slice(),
        [DownloadEvent::Error { index: 0, .. }, DownloadEvent::Complete]
    ));
    assert!(matches!(
        &events[0],
        DownloadEvent::Error { message, .. }
            if message == "failed to prepare Sample: Not a directory"
    ));
}

#[test]
fn mixed_outcomes_have_one_terminal_event_and_one_final_completion() {
    let skip_body = b"skip".to_vec();
    let skip = Server::new(&skip_body, Some(skip_body.len() as u64), "200 OK");
    let error = Server::new(b"", None, "503 Service Unavailable");
    let success_body = b"done".to_vec();
    let success = Server::new(&success_body, Some(success_body.len() as u64), "200 OK");
    let mut disk = Disk::default();
    disk.files.insert("skipped.mov".to_owned(), skip_body);
    let assets = vec![
        wallpaper_asset("skipped.mov"),
        wallpaper_asset("error.mov"),
        wallpaper_asset("success.mov"),
    ];
    let events = run_queue(&plan(assets, 3), &[skip, error, success], &mut disk);

    for index in 0..3 {
        let terminal_count =
            events.iter().filter(|event| terminal_index(event) == Some(index)).count();
        assert_eq!(terminal_count, 1);
    }
    assert!(matches!(events.last(), Some(DownloadEvent::Complete)));
    assert_eq!(
        events.iter().filter(|event| matches!(event, DownloadEvent::Complete)).count(),
        1
    );
    assert_eq!(disk.files["success.mov"], success_body);
}

#[test]
fn worker_limit_and_completion_are_observable() {
    let server = Server::new(b"x", Some(1), "200 OK");
    let assets = (0..5)
        .map(|index| {
            let mut asset = wallpaper_asset(&format!("asset-{index}.mov"));
            asset.id = format!("asset-{index}");
            asset
        })
        .collect::<Vec<_>>();
    let plan = plan(assets, 2);
    let QueueStep::Work { workers, jobs } = share_jobs(&plan, Ok(())) else {
        panic!("the queue did not start");
    };
    assert!(workers <= 2);
    assert_eq!(workers, 2);
    assert_eq!(jobs.len(), 5);
    let servers = vec![server; 5];
    let mut disk = Disk::default();
    let events = run_queue(&plan, &servers, &mut disk);

    assert!(matches!(events.last(), Some(DownloadEvent::Complete)));
    assert_eq!(
        events.iter().filter(|event| matches!(event, DownloadEvent::Complete)).count(),
        1
    );
    for index in 0..5 {
        let terminal_positions: Vec<_> = events
            .iter()
            .enumerate()
            .filter(|(_, event)| terminal_index(event) == Some(index))
            .map(|(position, _)| position)
            .collect();
        assert_eq!(terminal_positions.len(), 1);
        assert!(terminal_positions[0] < events.len() - 1);
        assert!(!events[terminal_positions[0] + 1..].iter().any(|event| {
            matches!(event, DownloadEvent::Progress { index: event_index, .. } if *event_index == index)
        }));
    }
}

#[test]
fn is_up_to_date_returns_false_when_no_expected_length() {
    assert!(!is_up_to_date(None, None));
    assert!(!is_up_to_date(Some(0), None));
}

#[test]
fn is_up_to_date_returns_false_when_file_missing() {
    assert!(!is_up_to_date(None, Some(100)));
}

#[test]
fn is_up_to_date_returns_true_when_size_matches() {
    let content = b"hello world";
    assert!(is_up_to_date(Some(content.len() as u64), Some(content.len() as u64)));
    assert!(!is_up_to_date(Some(content.len() as u64), Some(999)));
}

/// Streams bytes into a part file, and gives the file and the events.
fn stream(input: &[u8], part: &str, total_bytes: Option<u64>) -> (Disk, Vec<DownloadEvent>) {
    let mut transfer = Transfer {
        index: 0,
        stage: Stage::Creating { total_bytes },
        ..transfer_at(Stage::Over)
    };
    let mut disk = Disk::default();
    let mut events = Vec::new();
    let mut sent = 0;
    let mut chunk: Vec<u8> = Vec::new();
    let mut action = transfer.action();
    while action != JobAction::RenamePart {
        let report = match action {
            JobAction::CreatePart => {
                disk.files.insert(part.to_owned(), Vec::new());
                JobReport::Created(Ok(()))
            }
            JobAction::ReadChunk => {
                let end = input.len().min(sent + 64 * 1024);
                chunk = input[sent..end].to_vec();
                sent = end;
                JobReport::Read(Ok(chunk.len()))
            }
            JobAction::WriteChunk { count } => {
                disk.files.get_mut(part).unwrap().extend_from_slice(&chunk[..count]);
                JobReport::Written(Ok(()))
            }
            JobAction::FlushPart => JobReport::Flushed(Ok(())),
            _ => panic!("the stream failed"),
        };
        let order = transfer.download_stream(report);
        assert!(!order.remove_part);
        events.extend(order.event);
        action = order.action;
    }
    (disk, events)
}

#[test]
fn download_stream_emits_progress_events() {
    let input = b"hello progress world".to_vec();
    let (_, events) = stream(&input, "test.part", Some(input.len() as u64));
    let has_progress = events.iter().any(|e| matches!(e, DownloadEvent::Progress { .. }));
    assert!(has_progress);
    assert!(matches!(
        events.as_slice(),
        [DownloadEvent::Progress { index: 0, bytes_downloaded: 20, total_bytes: Some(20) }]
    ));
}

#[test]
fn streams_bytes_to_disk() {
    let input = b"wallpaper-bytes".to_vec();
    let (disk, _) = stream(&input, "sample.mov.part", Some(input.len() as u64));
    assert_eq!(disk.files["sample.mov.part"], input);
}

fn transfer_at(stage: Stage) -> Transfer {
    Transfer {
        index: 3,
        total: 7,
        title: "T".to_owned(),
        url: "U".to_owned(),
        file_name: "f.mov".to_owned(),
        path: "out/f.mov".to_owned(),
        stage,
    }
}

fn failure(stage: Stage, report: JobReport) -> String {
    let mut transfer = transfer_at(stage);
    let order = transfer.process_job(report);
    assert!(order.remove_part);
    assert_eq!(order.action, JobAction::Stop);
    assert_eq!(transfer.stage, Stage::Over);
    match order.event {
        Some(DownloadEvent::Error { index: 3, message }) => message,
        _ => panic!("no error"),
    }
}

#[test]
fn each_failure_says_what_failed() {
    let fault = || Err("why".to_owned());
    assert_eq!(
        failure(Stage::Requesting { told: None }, JobReport::Response(Err("why".to_owned()))),
        "failed to request T (U): why"
    );
    assert_eq!(
        failure(
            Stage::Requesting { told: Some(1) },
            JobReport::Response(Ok(ResponseHead {
                success: false,
                status: "404 Not Found".to_owned(),
                content_length: None,
            }))
        ),
        "server returned 404 Not Found for T (U)"
    );
    let total_bytes = Some(10);
    assert_eq!(
        failure(Stage::Creating { total_bytes }, JobReport::Created(fault())),
        "failed to download T (U): why"
    );
    let reading = Stage::Reading { total_bytes, downloaded: 4 };
    assert_eq!(
        failure(reading, JobReport::Read(Err("why".to_owned()))),
        "failed to download T (U): why"
    );
    assert_eq!(
        failure(reading, JobReport::Read(Ok(7))),
        "failed to download T (U): response exceeded its reported size"
    );
    assert_eq!(
        failure(reading, JobReport::Read(Ok(0))),
        "failed to download T (U): response ended at 4 of 10 bytes"
    );
    assert_eq!(
        failure(
            Stage::Writing { total_bytes, downloaded: 9, count: 5 },
            JobReport::Written(fault())
        ),
        "failed to download T (U): why"
    );
    assert_eq!(
        failure(Stage::Flushing { total_bytes, downloaded: 10 }, JobReport::Flushed(fault())),
        "failed to download T (U): why"
    );
    assert_eq!(
        failure(Stage::Renaming { total_bytes, downloaded: 10 }, JobReport::Renamed(fault())),
        "failed to finalize T (U): why"
    );
    assert_eq!(failure(reading, JobReport::Panicked), "a download worker panicked");
}

#[test]
fn the_size_in_the_response_counts_before_the_one_told() {
    let head = |content_length: Option<&str>| {
        JobReport::Response(Ok(ResponseHead {
            success: true,
            status: "200 OK".to_owned(),
            content_length: content_length.map(|text| text.to_owned()),
        }))
    };
    let mut told = transfer_at(Stage::Requesting { told: Some(5) });
    told.process_job(head(None));
    assert_eq!(told.stage, Stage::Creating { total_bytes: Some(5) });
    let mut both = transfer_at(Stage::Requesting { told: Some(5) });
    let order = both.process_job(head(Some("6")));
    assert_eq!(both.stage, Stage::Creating { total_bytes: Some(6) });
    assert!(matches!(
        order.event,
        Some(DownloadEvent::Started { index: 3, total: 7, total_bytes: Some(6), .. })
    ));
}

#[test]
fn sums_of_bytes_saturate() {
    let mut transfer =
        transfer_at(Stage::Reading { total_bytes: None, downloaded: u64::MAX - 1 });
    let order = transfer.process_job(JobReport::Read(Ok(5)));
    assert_eq!(order.action, JobAction::WriteChunk { count: 5 });
    assert_eq!(
        transfer.stage,
        Stage::Writing { total_bytes: None, downloaded: u64::MAX, count: 5 }
    );
}

#[test]
fn a_report_that_was_not_asked_for_changes_nothing() {
    let mut transfer = transfer_at(Stage::Asking);
    let order = transfer.process_job(JobReport::Read(Ok(5)));
    assert!(order.event.is_none());
    assert!(!order.remove_part);
    assert_eq!(order.action, JobAction::AskLength);
    let mut over = transfer_at(Stage::Over);
    let order = over.process_job(JobReport::Panicked);
    assert!(order.event.is_none());
    assert_eq!(order.action, JobAction::Stop);
}

#[test]
fn lengths_are_numbers_of_successes() {
    let header = |text: &str| Some(text.to_owned());
    assert_eq!(declared_content_length(&header("12")), Some(12));
    assert_eq!(declared_content_length(&header("+12")), Some(12));
    assert_eq!(declared_content_length(&header("18446744073709551615")), Some(u64::MAX));
    assert_eq!(declared_content_length(&header("18446744073709551616")), None);
    assert_eq!(declared_content_length(&header("")), None);
    assert_eq!(declared_content_length(&header(" 12")), None);
    assert_eq!(declared_content_length(&header("-1")), None);
    assert_eq!(declared_content_length(&None), None);
    let reply = |success| Some(LengthReply { success, content_length: Some("3".to_owned()) });
    assert_eq!(remote_length(&reply(true)), Some(3));
    assert_eq!(remote_length(&reply(false)), None);
    assert_eq!(remote_length(&None), None);
}

#[test]
fn a_queue_that_cannot_start_reports_every_asset() {
    let plan = plan(vec![wallpaper_asset("a"), wallpaper_asset("b")], 1);
    let events = start_downloads(&plan, Err("no threads".to_owned()));
    assert_eq!(events.len(), 3);
    assert!(matches!(
        &events[1],
        DownloadEvent::Error { index: 1, message }
            if message == "failed to start download queue for Sample: no threads"
    ));
    assert!(matches!(events[2], DownloadEvent::Complete));

    let QueueStep::Report(events) = share_jobs(&plan, Err("no client".to_owned())) else {
        panic!("the queue went on");
    };
    assert_eq!(events.len(), 2);
    assert!(matches!(
        &events[0],
        DownloadEvent::Error { index: 0, message }
            if message == "failed to prepare Sample (http://server/sample.mov): no client"
    ));
}

#[test]
fn an_empty_queue_finishes() {
    assert!(matches!(run_downloads(&plan(Vec::new(), 4), Ok(())), QueueStep::Finish));
}

#[test]
fn workers_are_limited() {
    assert_eq!(worker_count(0, 5), 1);
    assert_eq!(worker_count(9, 5), 5);
    assert_eq!(worker_count(3, 5), 3);
}

#[test]
fn errors_carry_their_index() {
    assert!(matches!(
        send_error(4, "m".to_owned()),
        DownloadEvent::Error { index: 4, message } if message == "m"
    ));
    assert!(matches!(
        worker_panicked(2),
        DownloadEvent::Error { index: 2, message } if message == "a download worker panicked"
    ));
    assert_eq!(part_name("x.mov"), "x.mov.part");
}

fn jobs(count: usize) -> Vec<DownloadJob> {
    (0..count)
        .map(|index| DownloadJob { index, asset: wallpaper_asset(&format!("{index}.mov")) })
        .collect()
}

#[test]
fn workers_take_each_job_once_and_one_at_a_time() {
    let mut pool = WorkPool::new(worker_count(2, 5), jobs(5));
    let mut taken = Vec::new();
    for worker in [0, 1, 1, 0, 1, 0, 1] {
        if let Some(job) = pool.take(worker) {
            assert_eq!(pool.busy[worker], Some(job.index));
            taken.push(job.index);
        } else {
            assert_eq!(pool.busy[worker], None);
        }
        assert!(pool.busy.iter().flatten().count() <= 2);
    }
    assert_eq!(taken, vec![0, 1, 2, 3, 4]);
    assert!(pool.waiting.is_empty());
}

#[test]
fn no_worker_asked_for_is_one_job_at_a_time() {
    let mut pool = WorkPool::new(worker_count(0, 3), jobs(3));
    assert_eq!(pool.busy, vec![None]);
    for index in 0..3 {
        assert_eq!(pool.take(0).unwrap().index, index);
        assert_eq!(pool.busy, vec![Some(index)]);
    }
    assert!(pool.take(0).is_none());
    assert_eq!(pool.busy, vec![None]);
}

#[test]
fn the_queue_is_closed_by_its_last_event() {
    assert!(matches!(queue_complete(), DownloadEvent::Complete));
}
