//! The state of the browser: what is shown, what is chosen, and how downloads go.

use std::collections::{BTreeMap, BTreeSet};

use vstd::prelude::*;

use crate::catalog;
use crate::catalog::WallpaperCatalog;
use crate::text;

pub mod accounts;
pub mod choices;
pub mod downloads;
pub mod following;
pub mod keys;
pub mod selection;
pub mod tree;

verus! {

/// What the browser is doing.
#[derive(Debug, Clone, Copy, PartialEq, Eq, Structural)]
pub enum Mode {
    Browsing,
    Downloading,
}

/// How much of something is chosen.
#[derive(Debug, Clone, Copy, PartialEq, Eq, Structural)]
pub enum SelectionState {
    Unselected,
    Partial,
    Selected,
}

/// What a node of the tree stands for, by its place in the catalog.
#[derive(Debug, Clone, Copy, PartialEq, Eq, Structural)]
pub enum TreeNodeKind {
    Category(usize),
    Subcategory { category: usize, subcategory: usize },
    Asset { category: usize, subcategory: usize, asset: usize },
}

/// One line of the tree.
#[derive(Debug)]
pub struct TreeNode {
    pub depth: usize,
    pub label: String,
    /// The number of assets that the node stands for.
    pub count: usize,
    pub kind: TreeNodeKind,
    pub expanded: bool,
}

/// How the downloads go.
#[derive(Debug)]
pub struct DownloadStatus {
    pub total_items: usize,
    pub completed_items: usize,
    pub failed_items: usize,
    /// The downloads that have started and not ended, by their index.
    pub active_jobs: BTreeMap<usize, ActiveDownloadStatus>,
    pub last_message: String,
    pub thread_count: usize,
    pub complete: bool,
}

/// How one download goes.
#[derive(Debug)]
pub struct ActiveDownloadStatus {
    pub title: String,
    pub file_name: String,
    pub bytes_downloaded: u64,
    pub total_bytes: Option<u64>,
}

/// The state of the browser.
#[derive(Debug)]
pub struct App {
    pub catalog: WallpaperCatalog,
    pub expanded_categories: BTreeSet<usize>,
    pub expanded_subcategories: BTreeSet<(usize, usize)>,
    pub selected_subcategories: BTreeSet<(usize, usize)>,
    pub selected_assets: BTreeSet<(usize, usize, usize)>,
    /// The line of the tree on which the cursor stands.
    pub selected_index: usize,
    pub mode: Mode,
    pub status: Option<DownloadStatus>,
    pub log_lines: Vec<String>,
    /// The directory for the files, as it is shown.
    pub output_dir: String,
    pub download_threads: usize,
}

/// The content of a [`TreeNode`].
pub struct Node {
    pub depth: usize,
    pub label: Seq<char>,
    pub count: usize,
    pub kind: TreeNodeKind,
    pub expanded: bool,
}

/// The content of an [`ActiveDownloadStatus`].
pub struct Active {
    pub title: Seq<char>,
    pub file_name: Seq<char>,
    pub bytes_downloaded: u64,
    pub total_bytes: Option<u64>,
}

/// The content of a [`DownloadStatus`].
#[verifier::ext_equal]
pub struct Status {
    pub total_items: usize,
    pub completed_items: usize,
    pub failed_items: usize,
    pub active_jobs: Map<usize, Active>,
    pub last_message: Seq<char>,
    pub thread_count: usize,
    pub complete: bool,
}

/// The content of an [`App`].
#[verifier::ext_equal]
pub struct State {
    pub catalog: Seq<catalog::Category>,
    pub expanded_categories: Set<usize>,
    pub expanded_subcategories: Set<(usize, usize)>,
    pub selected_subcategories: Set<(usize, usize)>,
    pub selected_assets: Set<(usize, usize, usize)>,
    pub selected_index: usize,
    pub mode: Mode,
    pub status: Option<Status>,
    pub log_lines: Seq<Seq<char>>,
    pub output_dir: Seq<char>,
    pub download_threads: usize,
}

impl View for TreeNode {
    type V = Node;

    open spec fn view(&self) -> Node {
        Node {
            depth: self.depth,
            label: self.label@,
            count: self.count,
            kind: self.kind,
            expanded: self.expanded,
        }
    }
}

impl View for ActiveDownloadStatus {
    type V = Active;

    open spec fn view(&self) -> Active {
        Active {
            title: self.title@,
            file_name: self.file_name@,
            bytes_downloaded: self.bytes_downloaded,
            total_bytes: self.total_bytes,
        }
    }
}

/// The contents of the downloads that are under way.
pub open spec fn active(jobs: Map<usize, ActiveDownloadStatus>) -> Map<usize, Active> {
    jobs.map_values(|job: ActiveDownloadStatus| job@)
}

impl View for DownloadStatus {
    type V = Status;

    open spec fn view(&self) -> Status {
        Status {
            total_items: self.total_items,
            completed_items: self.completed_items,
            failed_items: self.failed_items,
            active_jobs: active(self.active_jobs@),
            last_message: self.last_message@,
            thread_count: self.thread_count,
            complete: self.complete,
        }
    }
}

/// The content of an optional status.
pub open spec fn status_option(status: Option<DownloadStatus>) -> Option<Status> {
    match status {
        Some(status) => Some(status@),
        None => None,
    }
}

impl View for App {
    type V = State;

    open spec fn view(&self) -> State {
        State {
            catalog: self.catalog@,
            expanded_categories: self.expanded_categories@,
            expanded_subcategories: self.expanded_subcategories@,
            selected_subcategories: self.selected_subcategories@,
            selected_assets: self.selected_assets@,
            selected_index: self.selected_index,
            mode: self.mode,
            status: status_option(self.status),
            log_lines: text::texts(self.log_lines@),
            output_dir: self.output_dir@,
            download_threads: self.download_threads,
        }
    }
}

// ---------------------------------------------------------------------------------------------
// What holds of every state
// ---------------------------------------------------------------------------------------------
/// Whether a category is in the catalog.
pub open spec fn has_category(catalog: Seq<catalog::Category>, category: usize) -> bool {
    category < catalog.len()
}

/// Whether a subcategory is in the catalog.
pub open spec fn has_subcategory(
    catalog: Seq<catalog::Category>,
    category: usize,
    subcategory: usize,
) -> bool {
    has_category(catalog, category) && subcategory < catalog[category as int].subcategories.len()
}

/// Whether an asset is in the catalog.
pub open spec fn has_asset(
    catalog: Seq<catalog::Category>,
    category: usize,
    subcategory: usize,
    asset: usize,
) -> bool {
    has_subcategory(catalog, category, subcategory) && asset
        < catalog[category as int].subcategories[subcategory as int].assets.len()
}

/// What holds of every state: the cursor stands on a line of the tree, what is expanded or chosen
/// is in the catalog, no expanded subcategory is hidden, few lines are logged, every failed
/// download counts as completed, and every download that is under way has a number one above its
/// index.
pub open spec fn sound(state: State) -> bool {
    &&& catalog::countable(state.catalog)
    &&& state.selected_index < tree::visible(state).len() || (state.selected_index == 0
        && tree::visible(state).len() == 0)
    &&& forall|c: usize| #[trigger]
        state.expanded_categories.contains(c) ==> has_category(state.catalog, c)
    &&& forall|k: (usize, usize)| #[trigger]
        state.expanded_subcategories.contains(k) ==> has_subcategory(state.catalog, k.0, k.1)
            && state.expanded_categories.contains(k.0)
    &&& forall|k: (usize, usize)| #[trigger]
        state.selected_subcategories.contains(k) ==> has_subcategory(state.catalog, k.0, k.1)
    &&& forall|k: (usize, usize, usize)| #[trigger]
        state.selected_assets.contains(k) ==> has_asset(state.catalog, k.0, k.1, k.2)
    &&& state.log_lines.len() <= 6
    &&& state.status matches Some(status) ==> status.failed_items <= status.completed_items
        && !status.active_jobs.contains_key(usize::MAX)
}

// ---------------------------------------------------------------------------------------------
// The beginning and the log
// ---------------------------------------------------------------------------------------------
/// The state at the beginning: nothing is expanded or chosen.
pub open spec fn fresh(
    catalog: Seq<catalog::Category>,
    output_dir: Seq<char>,
    download_threads: usize,
) -> State {
    State {
        catalog,
        expanded_categories: Set::empty(),
        expanded_subcategories: Set::empty(),
        selected_subcategories: Set::empty(),
        selected_assets: Set::empty(),
        selected_index: 0,
        mode: Mode::Browsing,
        status: None,
        log_lines: seq!["Ready to download."@],
        output_dir,
        download_threads,
    }
}

/// The log with one more line: the last six stay.
pub open spec fn logged_in(lines: Seq<Seq<char>>, line: Seq<char>) -> Seq<Seq<char>> {
    let all = lines.push(line);
    if all.len() > 6 {
        all.drop_first()
    } else {
        all
    }
}

/// The state with one more line in its log.
pub open spec fn logged(state: State, line: Seq<char>) -> State {
    State { log_lines: logged_in(state.log_lines, line), ..state }
}

/// The log with more lines, one after another.
pub open spec fn all_logged_in(lines: Seq<Seq<char>>, more: Seq<Seq<char>>) -> Seq<Seq<char>>
    decreases more.len(),
{
    if more.len() == 0 {
        lines
    } else {
        logged_in(all_logged_in(lines, more.drop_last()), more.last())
    }
}

/// The log always holds the last six of all lines, or all of them if there are fewer.
pub proof fn law_log_keeps_the_last_six(lines: Seq<Seq<char>>, more: Seq<Seq<char>>)
    requires
        lines.len() <= 6,
    ensures
        ({
            let all = lines + more;
            let kept = all_logged_in(lines, more);
            if all.len() <= 6 {
                kept == all
            } else {
                kept == all.skip(all.len() - 6)
            }
        }),
    decreases more.len(),
{
    let all = lines + more;
    if more.len() == 0 {
        assert(all =~= lines);
    } else {
        law_log_keeps_the_last_six(lines, more.drop_last());
        let before = lines + more.drop_last();
        assert(all =~= before.push(more.last()));
        let kept = all_logged_in(lines, more);
        if all.len() > 6 {
            assert(kept =~= all.skip(all.len() - 6));
        } else {
            assert(kept =~= all);
        }
    }
}

impl App {
    /// The state at the beginning. A catalog from a manifest is always countable.
    pub fn new(catalog: WallpaperCatalog, output_dir: String, download_threads: usize) -> (app: App)
        requires
            catalog::countable(catalog@),
        ensures
            app@ == fresh(catalog@, output_dir@, download_threads),
            sound(app@),
    {
        let mut log_lines: Vec<String> = Vec::new();
        log_lines.push("Ready to download.".to_owned());
        let app = App {
            catalog,
            expanded_categories: BTreeSet::new(),
            expanded_subcategories: BTreeSet::new(),
            selected_subcategories: BTreeSet::new(),
            selected_assets: BTreeSet::new(),
            selected_index: 0,
            mode: Mode::Browsing,
            status: None,
            log_lines,
            output_dir,
            download_threads,
        };
        assert(app@.log_lines =~= seq!["Ready to download."@]);
        app
    }

    /// Adds a line to the log, which keeps the last six.
    pub fn log(&mut self, message: String)
        requires
            sound(old(self)@),
        ensures
            final(self)@ == logged(old(self)@, message@),
            sound(final(self)@),
    {
        let ghost before = text::texts(self.log_lines@);
        self.log_lines.push(message);
        assert(text::texts(self.log_lines@) =~= before.push(message@));
        if self.log_lines.len() > 6 {
            self.log_lines.remove(0);
            assert(text::texts(self.log_lines@) =~= before.push(message@).drop_first());
        }
        assert(self@ =~= logged(old(self)@, message@));
        proof {
            tree::lemma_same_tree(old(self)@, self@);
        }
    }
}

/// A line that is logged stands last. A log that has six lines already loses its first for it.
pub proof fn law_logged_lines_stand_last(state: State, line: Seq<char>)
    ensures
        state.log_lines.len() < 6 ==> logged_in(state.log_lines, line) == state.log_lines.push(line),
        state.log_lines.len() == 6 ==> logged_in(state.log_lines, line)
            == state.log_lines.drop_first().push(line),
        logged(state, line) == (State { log_lines: logged_in(state.log_lines, line), ..state }),
{
    if state.log_lines.len() == 6 {
        assert(state.log_lines.push(line).drop_first() =~= state.log_lines.drop_first().push(line));
    }
}

/// Lines that are logged one after another are logged all together.
pub proof fn lemma_logged_first(
    lines: Seq<Seq<char>>,
    first: Seq<char>,
    more: Seq<Seq<char>>,
)
    ensures
        all_logged_in(logged_in(lines, first), more) == all_logged_in(lines, seq![first] + more),
    decreases more.len(),
{
    let all = seq![first] + more;
    if more.len() == 0 {
        reveal_with_fuel(all_logged_in, 2);
        assert(all =~= seq![first]);
        assert(all.drop_last() =~= Seq::<Seq<char>>::empty());
    } else {
        lemma_logged_first(lines, first, more.drop_last());
        assert(all.drop_last() =~= seq![first] + more.drop_last());
    }
}

} // verus!
