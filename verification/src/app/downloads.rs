//! How downloads begin, how they are followed, and how files are removed.

use std::collections::BTreeMap;

use vstd::prelude::*;

use crate::app;
use crate::app::selection;
use crate::app::tree;
use crate::app::{ActiveDownloadStatus, App, DownloadStatus, Mode, State};
use crate::catalog;
use crate::downloader;
use crate::downloader::{DownloadEvent, DownloadPlan};
use crate::paths;
use crate::paths::join_path;
use crate::text;

verus! {

// ---------------------------------------------------------------------------------------------
// Beginning
// ---------------------------------------------------------------------------------------------
/// The number of workers that is asked for: at least one.
pub open spec fn thread_count(state: State) -> usize {
    if state.download_threads == 0 {
        1
    } else {
        state.download_threads
    }
}

/// The state when the download of so many files begins.
pub open spec fn begun(state: State, count: nat) -> State {
    State {
        mode: Mode::Downloading,
        status: Some(
            app::Status {
                total_items: count as usize,
                completed_items: 0,
                failed_items: 0,
                active_jobs: Map::empty(),
                last_message: "Downloading "@ + text::decimal(count) + " files into "@
                    + state.output_dir,
                thread_count: thread_count(state),
                complete: false,
            },
        ),
        log_lines: seq![
            "Downloading "@ + text::decimal(count) + " assets with up to "@ + text::decimal(
                thread_count(state) as nat,
            ) + " workers to "@ + state.output_dir,
        ],
        ..state
    }
}

impl App {
    /// Begins to download what is chosen, and gives the plan; refuses where nothing is.
    pub fn begin_downloads(&mut self) -> (plan: Result<DownloadPlan, String>)
        requires
            app::sound(old(self)@),
        ensures
            app::sound(final(self)@),
            match plan {
                Ok(plan) => {
                    let chosen = selection::selection(old(self)@);
                    &&& chosen.len() > 0
                    &&& catalog::assets(plan.assets@) == chosen
                    &&& plan.output_dir@ == old(self)@.output_dir
                    &&& plan.threads == thread_count(old(self)@)
                    &&& final(self)@ == begun(old(self)@, chosen.len())
                },
                Err(message) => {
                    &&& selection::selection(old(self)@).len() == 0
                    &&& message@ == "No items selected."@
                    &&& final(self)@ == old(self)@
                },
            },
    {
        let assets = self.selected_assets();
        if assets.len() == 0 {
            return Err("No items selected.".to_owned());
        }
        let threads: usize = if self.download_threads == 0 {
            1
        } else {
            self.download_threads
        };
        let count = text::count_text(assets.len());

        let mut last_message = "Downloading ".to_owned();
        last_message.append(count.as_str());
        last_message.append(" files into ");
        last_message.append(self.output_dir.as_str());

        let mut line = "Downloading ".to_owned();
        line.append(count.as_str());
        line.append(" assets with up to ");
        line.append(text::count_text(threads).as_str());
        line.append(" workers to ");
        line.append(self.output_dir.as_str());

        self.mode = Mode::Downloading;
        self.status = Some(
            DownloadStatus {
                total_items: assets.len(),
                completed_items: 0,
                failed_items: 0,
                active_jobs: BTreeMap::new(),
                last_message,
                thread_count: threads,
                complete: false,
            },
        );
        let mut log_lines: Vec<String> = Vec::new();
        log_lines.push(line);
        self.log_lines = log_lines;
        assert(self@ =~= begun(old(self)@, catalog::assets(assets@).len())) by {
            assert(self@.status->0.active_jobs =~= Map::<usize, app::Active>::empty());
            assert(self@.log_lines =~= seq![line@]);
        }
        proof {
            tree::lemma_same_tree(old(self)@, self@);
        }
        Ok(DownloadPlan { assets, output_dir: self.output_dir.clone(), threads })
    }
}

// ---------------------------------------------------------------------------------------------
// Following
// ---------------------------------------------------------------------------------------------
/// The status after an event.
pub open spec fn status_after(
    status: app::Status,
    event: downloader::Event,
    output_dir: Seq<char>,
) -> app::Status {
    match event {
        downloader::Event::Started { index, total, title, file_name, total_bytes } => app::Status {
            total_items: total,
            active_jobs: status.active_jobs.insert(
                index,
                app::Active { title, file_name, bytes_downloaded: 0, total_bytes },
            ),
            last_message: "Writing "@ + file_name,
            ..status
        },
        downloader::Event::Progress { index, bytes_downloaded, total_bytes } => {
            if status.active_jobs.contains_key(index) {
                app::Status {
                    active_jobs: status.active_jobs.insert(
                        index,
                        app::Active { bytes_downloaded, total_bytes, ..status.active_jobs[index] },
                    ),
                    ..status
                }
            } else {
                status
            }
        },
        downloader::Event::Finished { index, path } => app::Status {
            active_jobs: status.active_jobs.remove(index),
            completed_items: (status.completed_items + 1) as usize,
            last_message: "Saved "@ + path,
            ..status
        },
        downloader::Event::Skipped { index, path } => app::Status {
            active_jobs: status.active_jobs.remove(index),
            completed_items: (status.completed_items + 1) as usize,
            last_message: "Skipped "@ + path,
            ..status
        },
        downloader::Event::Error { index, message } => {
            let counted = app::Status {
                active_jobs: status.active_jobs.remove(index),
                last_message: message,
                ..status
            };
            if index == usize::MAX {
                counted
            } else {
                app::Status {
                    completed_items: (status.completed_items + 1) as usize,
                    failed_items: (status.failed_items + 1) as usize,
                    ..counted
                }
            }
        },
        downloader::Event::Complete => app::Status {
            complete: true,
            last_message: "Finished saving into "@ + output_dir,
            ..status
        },
    }
}

/// The line that an event leaves in the log.
pub open spec fn event_line(event: downloader::Event) -> Option<Seq<char>> {
    match event {
        downloader::Event::Started { index, total, title, .. } => Some(
            "Started "@ + text::decimal((index + 1) as nat) + "/"@ + text::decimal(total as nat)
                + ": "@ + title,
        ),
        downloader::Event::Progress { .. } => None,
        downloader::Event::Finished { path, .. } => Some("Saved "@ + path),
        downloader::Event::Skipped { path, .. } => Some("Skipped "@ + path),
        downloader::Event::Error { message, .. } => Some("Error: "@ + message),
        downloader::Event::Complete => Some("All downloads complete."@),
    }
}

/// The state after an event.
pub open spec fn after_event(state: State, event: downloader::Event) -> State {
    let followed = State {
        status: match state.status {
            Some(status) => Some(status_after(status, event, state.output_dir)),
            None => None,
        },
        mode: if event is Complete {
            Mode::Browsing
        } else {
            state.mode
        },
        ..state
    };
    match event_line(event) {
        Some(line) => app::logged(followed, line),
        None => followed,
    }
}

/// Whether the numbers that an event changes or shows stay within a machine word.
pub open spec fn event_fits(state: State, event: downloader::Event) -> bool {
    match event {
        downloader::Event::Started { index, .. } => index < usize::MAX,
        downloader::Event::Progress { .. } => true,
        downloader::Event::Complete => true,
        _ => state.status matches Some(status) ==> status.completed_items < usize::MAX,
    }
}

/// The words of a text behind others.
fn written(lead: &str, rest: &str) -> (words: String)
    ensures
        words@ == lead@ + rest@,
{
    let mut words = lead.to_owned();
    words.append(rest);
    words
}

/// Removes a download from those that are under way.
fn forget(jobs: &mut BTreeMap<usize, ActiveDownloadStatus>, index: usize)
    ensures
        app::active(final(jobs)@) == app::active(old(jobs)@).remove(index),
{
    let ghost before = jobs@;
    jobs.remove(&index);
    assert(app::active(jobs@) =~= app::active(before).remove(index));
}

/// Follows an event in the status.
fn follow(status: DownloadStatus, event: &DownloadEvent, output_dir: &str) -> (after: DownloadStatus)
    requires
        status.failed_items <= status.completed_items,
        match event {
            DownloadEvent::Started { .. } => true,
            DownloadEvent::Progress { .. } => true,
            DownloadEvent::Complete => true,
            _ => status.completed_items < usize::MAX,
        },
    ensures
        after@ == status_after(status@, event@, output_dir@),
{
    let ghost start = status@;
    let mut status = status;
    match event {
        DownloadEvent::Started { index, total, title, file_name, total_bytes } => {
            status.total_items = *total;
            let job = ActiveDownloadStatus {
                title: title.clone(),
                file_name: file_name.clone(),
                bytes_downloaded: 0,
                total_bytes: *total_bytes,
            };
            let ghost before = status.active_jobs@;
            status.active_jobs.insert(*index, job);
            assert(app::active(status.active_jobs@) =~= app::active(before).insert(*index, job@));
            status.last_message = written("Writing ", file_name.as_str());
        },
        DownloadEvent::Progress { index, bytes_downloaded, total_bytes } => {
            let ghost before = status.active_jobs@;
            if let Some(mut job) = status.active_jobs.remove(index) {
                job.bytes_downloaded = *bytes_downloaded;
                job.total_bytes = *total_bytes;
                status.active_jobs.insert(*index, job);
                assert(app::active(status.active_jobs@) =~= app::active(before).insert(
                    *index,
                    job@,
                ));
            } else {
                assert(status.active_jobs@ =~= before);
            }
        },
        DownloadEvent::Finished { index, path } => {
            forget(&mut status.active_jobs, *index);
            status.completed_items = status.completed_items + 1;
            status.last_message = written("Saved ", path.as_str());
        },
        DownloadEvent::Skipped { index, path } => {
            forget(&mut status.active_jobs, *index);
            status.completed_items = status.completed_items + 1;
            status.last_message = written("Skipped ", path.as_str());
        },
        DownloadEvent::Error { index, message } => {
            forget(&mut status.active_jobs, *index);
            if *index != usize::MAX {
                status.completed_items = status.completed_items + 1;
                status.failed_items = status.failed_items + 1;
            }
            status.last_message = message.clone();
        },
        DownloadEvent::Complete => {
            status.complete = true;
            status.last_message = written("Finished saving into ", output_dir);
        },
    }
    assert(status@ =~= status_after(start, event@, output_dir@));
    status
}

/// Writes the line that an event leaves in the log.
fn write_event_line(event: &DownloadEvent) -> (line: Option<String>)
    requires
        event matches DownloadEvent::Started { index, .. } ==> index < usize::MAX,
    ensures
        text::text_option(line) == event_line(event@),
{
    match event {
        DownloadEvent::Started { index, total, title, .. } => {
            let mut line = "Started ".to_owned();
            line.append(text::count_text(*index + 1).as_str());
            line.append("/");
            line.append(text::count_text(*total).as_str());
            line.append(": ");
            line.append(title.as_str());
            Some(line)
        },
        DownloadEvent::Progress { .. } => None,
        DownloadEvent::Finished { path, .. } => Some(written("Saved ", path.as_str())),
        DownloadEvent::Skipped { path, .. } => Some(written("Skipped ", path.as_str())),
        DownloadEvent::Error { message, .. } => Some(written("Error: ", message.as_str())),
        DownloadEvent::Complete => Some("All downloads complete.".to_owned()),
    }
}

impl App {
    /// Follows an event of the queue.
    pub fn handle_event(&mut self, event: DownloadEvent)
        requires
            app::sound(old(self)@),
            event_fits(old(self)@, event@),
        ensures
            final(self)@ == after_event(old(self)@, event@),
            app::sound(final(self)@),
    {
        let line = write_event_line(&event);
        if let Some(status) = self.status.take() {
            self.status = Some(follow(status, &event, self.output_dir.as_str()));
        }
        if let DownloadEvent::Complete = event {
            self.mode = Mode::Browsing;
        }
        proof {
            tree::lemma_same_tree(old(self)@, self@);
        }
        if let Some(line) = line {
            self.log(line);
        }
    }
}

// ---------------------------------------------------------------------------------------------
// Removing
// ---------------------------------------------------------------------------------------------
/// What came of removing a file.
#[derive(Debug)]
pub enum Removal {
    /// There is no such file.
    Missing,
    Removed,
    /// It could not be removed, for a reason given in words.
    Failed(String),
}

/// What came of removing the file with this number; nothing came of one that is not told.
pub open spec fn outcome_at(outcomes: Seq<Removal>, i: int) -> Removal {
    if 0 <= i < outcomes.len() {
        outcomes[i]
    } else {
        Removal::Missing
    }
}

/// Whether a removal failed.
pub open spec fn one_failed(outcomes: Seq<Removal>) -> bool {
    exists|k: int| 0 <= k < outcomes.len() && #[trigger] outcomes[k] is Failed
}

/// Whether nothing is left to remove: a removal failed, or all files under the cursor are gone
/// through.
pub open spec fn removal_is_over(state: State, outcomes: Seq<Removal>) -> bool {
    one_failed(outcomes) || outcomes.len() >= selection::under_cursor(state).len()
}

/// The path of the file of an asset.
pub open spec fn file_path(state: State, asset: catalog::Asset) -> Seq<char> {
    paths::joined_path(state.output_dir, asset.file_name)
}

/// The state, and the number of removed files or the reason for none, once the files of `assets`
/// from number `i` on are gone through. The first failure ends it.
pub open spec fn removal_from(
    state: State,
    assets: Seq<catalog::Asset>,
    outcomes: Seq<Removal>,
    i: int,
    removed: nat,
) -> (State, Result<nat, Seq<char>>)
    decreases assets.len() - i,
{
    if i >= assets.len() {
        (
            state,
            if removed == 0 {
                Err("No downloaded files were found to remove."@)
            } else {
                Ok(removed)
            },
        )
    } else {
        let path = file_path(state, assets[i]);
        match outcome_at(outcomes, i) {
            Removal::Missing => removal_from(state, assets, outcomes, i + 1, removed),
            Removal::Removed => removal_from(
                app::logged(state, "Removed "@ + path),
                assets,
                outcomes,
                i + 1,
                removed + 1,
            ),
            Removal::Failed(words) => (
                state,
                Err("Failed to remove "@ + path + ": "@ + words@),
            ),
        }
    }
}

/// The state, and the number of removed files or the reason for none, once the files under the
/// cursor are gone through.
pub open spec fn after_removal(state: State, outcomes: Seq<Removal>) -> (
    State,
    Result<nat, Seq<char>>,
) {
    let assets = selection::under_cursor(state);
    if assets.len() == 0 {
        (state, Err("Nothing selected to remove."@))
    } else {
        removal_from(state, assets, outcomes, 0, 0)
    }
}

/// The line that a removal leaves in the log.
pub open spec fn removal_line(result: Result<nat, Seq<char>>) -> Seq<char> {
    match result {
        Ok(removed) => "Removed "@ + text::decimal(removed) + " files."@,
        Err(message) => message,
    }
}

impl App {
    /// The number of the file under the cursor that is to be removed next, given what came of
    /// removing those before it.
    pub fn next_removal(&self, outcomes: &Vec<Removal>) -> (next: Option<usize>)
        requires
            app::sound(self@),
        ensures
            next == (if removal_is_over(self@, outcomes@) {
                None
            } else {
                Some(outcomes.len())
            }),
    {
        let mut i: usize = 0;
        while i < outcomes.len()
            invariant
                i <= outcomes.len(),
                forall|k: int| 0 <= k < i ==> !(#[trigger] outcomes@[k] is Failed),
            decreases outcomes.len() - i,
        {
            if let Removal::Failed(_) = &outcomes[i] {
                assert(outcomes@[i as int] is Failed);
                return None;
            }
            i = i + 1;
        }
        let assets = self.current_assets();
        if outcomes.len() >= assets.len() {
            None
        } else {
            Some(outcomes.len())
        }
    }

    /// Goes through the files under the cursor, given what came of removing each.
    pub fn remove_current_item(&mut self, outcomes: &Vec<Removal>) -> (result: Result<usize, String>)
        requires
            app::sound(old(self)@),
        ensures
            final(self)@ == after_removal(old(self)@, outcomes@).0,
            app::sound(final(self)@),
            match result {
                Ok(removed) => after_removal(old(self)@, outcomes@).1 == Ok::<nat, Seq<char>>(
                    removed as nat,
                ),
                Err(message) => after_removal(old(self)@, outcomes@).1 == Err::<nat, Seq<char>>(
                    message@,
                ),
            },
    {
        let assets = self.current_assets();
        if assets.len() == 0 {
            return Err("Nothing selected to remove.".to_owned());
        }
        let ghost list = catalog::assets(assets@);
        let ghost goal = after_removal(self@, outcomes@);
        let mut removed: usize = 0;
        let mut i: usize = 0;
        while i < assets.len()
            invariant
                i <= assets.len(),
                removed <= i,
                list == catalog::assets(assets@),
                app::sound(self@),
                goal == after_removal(old(self)@, outcomes@),
                goal == removal_from(self@, list, outcomes@, i as int, removed as nat),
            decreases assets.len() - i,
        {
            assert(list[i as int] == assets@[i as int]@);
            if i < outcomes.len() {
                match &outcomes[i] {
                    Removal::Missing => {},
                    Removal::Removed => {
                        let path = join_path(self.output_dir.as_str(), assets[i].file_name.as_str());
                        self.log(written("Removed ", path.as_str()));
                        removed = removed + 1;
                    },
                    Removal::Failed(words) => {
                        let path = join_path(self.output_dir.as_str(), assets[i].file_name.as_str());
                        let mut message = written("Failed to remove ", path.as_str());
                        message.append(": ");
                        message.append(words.as_str());
                        return Err(message);
                    },
                }
            }
            i = i + 1;
        }
        if removed == 0 {
            return Err("No downloaded files were found to remove.".to_owned());
        }
        Ok(removed)
    }

    /// Goes through the files under the cursor, given what came of removing each, and logs the
    /// result.
    pub fn finish_removal(&mut self, outcomes: &Vec<Removal>)
        requires
            app::sound(old(self)@),
        ensures
            ({
                let (state, result) = after_removal(old(self)@, outcomes@);
                final(self)@ == app::logged(state, removal_line(result))
            }),
            app::sound(final(self)@),
    {
        match self.remove_current_item(outcomes) {
            Ok(removed) => {
                let mut line = written("Removed ", text::count_text(removed).as_str());
                line.append(" files.");
                self.log(line);
            },
            Err(message) => self.log(message),
        }
    }
}

/// The number of files that were removed before the first failure.
pub open spec fn removed_count(assets: nat, outcomes: Seq<Removal>, i: int) -> nat
    decreases assets - i,
{
    if i >= assets {
        0
    } else {
        match outcome_at(outcomes, i) {
            Removal::Missing => removed_count(assets, outcomes, i + 1),
            Removal::Removed => removed_count(assets, outcomes, i + 1) + 1,
            Removal::Failed(_) => 0,
        }
    }
}

proof fn lemma_removal_counts(
    state: State,
    assets: Seq<catalog::Asset>,
    outcomes: Seq<Removal>,
    i: int,
    removed: nat,
)
    requires
        0 <= i,
    ensures
        match removal_from(state, assets, outcomes, i, removed).1 {
            Ok(n) => n > 0 && n == removed + removed_count(assets.len(), outcomes, i),
            Err(_) => removed + removed_count(assets.len(), outcomes, i) == 0 || exists|k: int|
                i <= k < assets.len() && #[trigger] outcome_at(outcomes, k) is Failed,
        },
    decreases assets.len() - i,
{
    if i < assets.len() {
        match outcome_at(outcomes, i) {
            Removal::Missing => {
                lemma_removal_counts(state, assets, outcomes, i + 1, removed);
            },
            Removal::Removed => {
                let path = file_path(state, assets[i]);
                lemma_removal_counts(
                    app::logged(state, "Removed "@ + path),
                    assets,
                    outcomes,
                    i + 1,
                    removed + 1,
                );
            },
            Removal::Failed(_) => {},
        }
    }
}

/// A removal succeeds exactly with the number of files that were removed, which is not zero; it
/// fails only where no file was removed or one could not be.
pub proof fn law_removals_are_counted(state: State, outcomes: Seq<Removal>)
    ensures
        ({
            let count = selection::under_cursor(state).len();
            match after_removal(state, outcomes).1 {
                Ok(n) => n > 0 && n == removed_count(count, outcomes, 0),
                Err(_) => removed_count(count, outcomes, 0) == 0 || exists|k: int|
                    0 <= k < count && #[trigger] outcome_at(outcomes, k) is Failed,
            }
        }),
{
    let assets = selection::under_cursor(state);
    if assets.len() > 0 {
        lemma_removal_counts(state, assets, outcomes, 0, 0);
    }
}

proof fn lemma_later_outcomes_do_not_count(
    state: State,
    assets: Seq<catalog::Asset>,
    outcomes: Seq<Removal>,
    more: Seq<Removal>,
    i: int,
    removed: nat,
)
    requires
        0 <= i,
        outcomes.len() >= assets.len() || exists|k: int|
            i <= k < outcomes.len() && #[trigger] outcomes[k] is Failed,
    ensures
        removal_from(state, assets, outcomes + more, i, removed) == removal_from(
            state,
            assets,
            outcomes,
            i,
            removed,
        ),
    decreases assets.len() - i,
{
    if i < assets.len() {
        assert(i < outcomes.len());
        assert((outcomes + more)[i] == outcomes[i]);
        match outcomes[i] {
            Removal::Missing => {
                lemma_later_outcomes_do_not_count(state, assets, outcomes, more, i + 1, removed);
            },
            Removal::Removed => {
                let path = file_path(state, assets[i]);
                lemma_later_outcomes_do_not_count(
                    app::logged(state, "Removed "@ + path),
                    assets,
                    outcomes,
                    more,
                    i + 1,
                    removed + 1,
                );
            },
            Removal::Failed(_) => {},
        }
    }
}

/// Once nothing is left to remove, the result is settled: no further outcome would change it.
pub proof fn law_removal_ends_settled(state: State, outcomes: Seq<Removal>, more: Seq<Removal>)
    requires
        removal_is_over(state, outcomes),
    ensures
        after_removal(state, outcomes + more) == after_removal(state, outcomes),
{
    let assets = selection::under_cursor(state);
    if assets.len() > 0 {
        lemma_later_outcomes_do_not_count(state, assets, outcomes, more, 0, 0);
    }
}

// ---------------------------------------------------------------------------------------------
// What comes of a removal
// ---------------------------------------------------------------------------------------------
/// Whether it is told that a file was removed.
pub open spec fn is_removed(outcomes: Seq<Removal>, i: int) -> bool {
    0 <= i < outcomes.len() && outcomes[i] is Removed
}

/// Whether it is told that a file could not be removed.
pub open spec fn is_failed(outcomes: Seq<Removal>, i: int) -> bool {
    0 <= i < outcomes.len() && outcomes[i] is Failed
}

/// The lines on the files that were removed, of those with the numbers from `from` up to `to`: one
/// for each, with the path of the file.
pub open spec fn removal_lines(
    output_dir: Seq<char>,
    assets: Seq<catalog::Asset>,
    outcomes: Seq<Removal>,
    from: int,
    to: int,
) -> Seq<Seq<char>>
    decreases to - from,
{
    if from >= to {
        Seq::empty()
    } else {
        let rest = removal_lines(output_dir, assets, outcomes, from + 1, to);
        if is_removed(outcomes, from) {
            seq!["Removed "@ + paths::joined_path(output_dir, assets[from].file_name)] + rest
        } else {
            rest
        }
    }
}

proof fn lemma_removal(
    state: State,
    assets: Seq<catalog::Asset>,
    outcomes: Seq<Removal>,
    from: int,
    to: int,
    removed: nat,
)
    requires
        0 <= from <= to <= assets.len(),
        forall|i: int| from <= i < to ==> !#[trigger] is_failed(outcomes, i),
        to < assets.len() ==> is_failed(outcomes, to),
    ensures
        ({
            let lines = removal_lines(state.output_dir, assets, outcomes, from, to);
            let (after, result) = removal_from(state, assets, outcomes, from, removed);
            &&& after == (State {
                log_lines: app::all_logged_in(state.log_lines, lines),
                ..state
            })
            &&& result == if to < assets.len() {
                Err::<nat, Seq<char>>(
                    "Failed to remove "@ + paths::joined_path(
                        state.output_dir,
                        assets[to].file_name,
                    ) + ": "@ + outcomes[to]->Failed_0@,
                )
            } else if removed + lines.len() == 0 {
                Err::<nat, Seq<char>>("No downloaded files were found to remove."@)
            } else {
                Ok::<nat, Seq<char>>((removed + lines.len()) as nat)
            }
        }),
    decreases to - from,
{
    let lines = removal_lines(state.output_dir, assets, outcomes, from, to);
    if from < to {
        assert(!is_failed(outcomes, from));
        let path = file_path(state, assets[from]);
        let line = "Removed "@ + path;
        if is_removed(outcomes, from) {
            let next = app::logged(state, line);
            let rest = removal_lines(state.output_dir, assets, outcomes, from + 1, to);
            lemma_removal(next, assets, outcomes, from + 1, to, removed + 1);
            app::lemma_logged_first(state.log_lines, line, rest);
        } else {
            lemma_removal(state, assets, outcomes, from + 1, to, removed);
        }
    }
}

/// A removal goes through the files under the cursor in their order, up to the first that could not
/// be removed. The log gets a line for each that was, with its path, and nothing else changes. The
/// result is how many were; where one could not be, which one and why; and where none was there, or
/// there is nothing under the cursor, that.
pub proof fn law_removals_tell_what_was_removed(state: State, outcomes: Seq<Removal>, to: int)
    requires
        0 <= to <= selection::under_cursor(state).len(),
        forall|i: int| 0 <= i < to ==> !#[trigger] is_failed(outcomes, i),
        to < selection::under_cursor(state).len() ==> is_failed(outcomes, to),
    ensures
        ({
            let assets = selection::under_cursor(state);
            let lines = removal_lines(state.output_dir, assets, outcomes, 0, to);
            let (after, result) = after_removal(state, outcomes);
            &&& after == (State {
                log_lines: app::all_logged_in(state.log_lines, lines),
                ..state
            })
            &&& result == if assets.len() == 0 {
                Err::<nat, Seq<char>>("Nothing selected to remove."@)
            } else if to < assets.len() {
                Err::<nat, Seq<char>>(
                    "Failed to remove "@ + paths::joined_path(
                        state.output_dir,
                        assets[to].file_name,
                    ) + ": "@ + outcomes[to]->Failed_0@,
                )
            } else if lines.len() == 0 {
                Err::<nat, Seq<char>>("No downloaded files were found to remove."@)
            } else {
                Ok::<nat, Seq<char>>(lines.len())
            }
        }),
{
    let assets = selection::under_cursor(state);
    if assets.len() > 0 {
        lemma_removal(state, assets, outcomes, 0, to, 0);
    }
}

/// What came of a removal is logged in words: how many files were removed, or why none was.
pub proof fn law_removals_are_logged(count: nat, reason: Seq<char>)
    ensures
        removal_line(Ok(count)) == "Removed "@ + text::decimal(count) + " files."@,
        removal_line(Err(reason)) == reason,
{
}

/// Removing goes on with the next file exactly as long as none could not be removed and there is
/// one left.
pub proof fn law_removing_goes_on_until_one_fails(state: State, outcomes: Seq<Removal>)
    ensures
        removal_is_over(state, outcomes) == ((exists|i: int| #[trigger] is_failed(outcomes, i))
            || outcomes.len() >= selection::under_cursor(state).len()),
{
    if one_failed(outcomes) {
        let k = choose|k: int| 0 <= k < outcomes.len() && #[trigger] outcomes[k] is Failed;
        assert(is_failed(outcomes, k));
    }
    if exists|i: int| #[trigger] is_failed(outcomes, i) {
        let i = choose|i: int| #[trigger] is_failed(outcomes, i);
        assert(outcomes[i] is Failed);
    }
}

} // verus!
