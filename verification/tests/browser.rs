use awm::app::downloads::Removal;
use awm::app::keys::{Command, Key};
use awm::app::{App, Mode, SelectionState, TreeNodeKind};
use awm::catalog::{WallpaperAsset, WallpaperCatalog, WallpaperCategory, WallpaperSubcategory};
use awm::downloader::{queue_complete, report_obstacle, DownloadEvent, Obstacle};

fn asset(name: &str) -> WallpaperAsset {
    WallpaperAsset {
        id: name.to_owned(),
        title: format!("Title {name}"),
        description: None,
        url: format!("http://e.com/{name}.mov"),
        file_name: format!("{name}.mov"),
        extension: ".mov".to_owned(),
    }
}

fn subcategory(name: &str, assets: &[&str]) -> WallpaperSubcategory {
    WallpaperSubcategory {
        id: name.to_owned(),
        name: name.to_owned(),
        description: None,
        assets: assets.iter().map(|name| asset(name)).collect(),
    }
}

/// Two categories: one with two subcategories of two and one assets, one with one subcategory that
/// shares an asset.
fn browser() -> App {
    let catalog = WallpaperCatalog {
        categories: vec![
            WallpaperCategory {
                id: "c0".to_owned(),
                name: "First".to_owned(),
                description: None,
                subcategories: vec![
                    subcategory("s00", &["a", "b"]),
                    subcategory("s01", &["c"]),
                ],
            },
            WallpaperCategory {
                id: "c1".to_owned(),
                name: "Second".to_owned(),
                description: None,
                subcategories: vec![subcategory("s10", &["b", "d"])],
            },
        ],
    };
    App::new(catalog, "out".to_owned(), 3)
}

fn kinds(app: &App) -> Vec<TreeNodeKind> {
    app.visible_nodes().iter().map(|node| node.kind).collect()
}

fn files(app: &App) -> Vec<String> {
    app.selected_assets().iter().map(|asset| asset.file_name.clone()).collect()
}

#[test]
fn nothing_is_chosen_at_first() {
    let app = browser();
    assert!(app.selected_assets().is_empty());
    assert_eq!(app.log_lines, vec!["Ready to download."]);
    assert_eq!(app.mode, Mode::Browsing);
    assert_eq!(kinds(&app), vec![TreeNodeKind::Category(0), TreeNodeKind::Category(1)]);
    assert_eq!(app.selection_state_for_category(0), SelectionState::Unselected);
}

#[test]
fn nodes_show_their_counts_and_depths() {
    let mut app = browser();
    app.expand_current();
    app.move_down();
    app.expand_current();
    let nodes = app.visible_nodes();
    let shown: Vec<(usize, &str, usize, bool)> = nodes
        .iter()
        .map(|node| (node.depth, node.label.as_str(), node.count, node.expanded))
        .collect();
    assert_eq!(
        shown,
        vec![
            (0, "First", 3, true),
            (1, "s00", 2, true),
            (2, "Title a", 1, false),
            (2, "Title b", 1, false),
            (1, "s01", 1, false),
            (0, "Second", 2, false),
        ]
    );
    assert_eq!(
        nodes[3].kind,
        TreeNodeKind::Asset { category: 0, subcategory: 0, asset: 1 }
    );
    assert_eq!(app.current_node().unwrap().label, "s00");
}

#[test]
fn the_cursor_wraps_and_moves_back() {
    let mut app = browser();
    app.move_up();
    assert_eq!(app.selected_index, 1);
    app.move_down();
    assert_eq!(app.selected_index, 0);
    app.move_down();
    app.move_up();
    assert_eq!(app.selected_index, 0);
}

#[test]
fn an_empty_catalog_has_no_lines() {
    let mut app = App::new(WallpaperCatalog { categories: Vec::new() }, "out".to_owned(), 1);
    app.move_up();
    app.move_down();
    app.expand_current();
    app.collapse_current();
    app.toggle_current_selection();
    assert_eq!(app.selected_index, 0);
    assert!(app.current_node().is_none());
    assert!(app.current_assets().is_empty());
    assert_eq!(
        app.remove_current_item(&Vec::new()),
        Err("Nothing selected to remove.".to_owned())
    );
}

#[test]
fn collapsing_undoes_expanding_and_hides_what_is_below() {
    let mut app = browser();
    app.expand_current();
    app.collapse_current();
    assert_eq!(kinds(&app).len(), 2);
    app.expand_current();
    app.move_down();
    app.expand_current();
    assert_eq!(kinds(&app).len(), 6);
    app.move_up();
    app.collapse_current();
    assert_eq!(kinds(&app).len(), 2);
    app.expand_current();
    assert_eq!(kinds(&app).len(), 4);
    assert_eq!(app.selected_index, 0);
}

#[test]
fn toggling_a_category_takes_all_or_nothing() {
    let mut app = browser();
    app.toggle_current_selection();
    assert_eq!(app.selection_state_for_category(0), SelectionState::Selected);
    assert_eq!(app.selection_state_for_category(1), SelectionState::Unselected);
    assert_eq!(files(&app), vec!["a.mov", "b.mov", "c.mov"]);
    app.toggle_current_selection();
    assert_eq!(app.selection_state_for_category(0), SelectionState::Unselected);
    assert!(files(&app).is_empty());
}

#[test]
fn toggling_an_asset_chooses_it_alone() {
    let mut app = browser();
    app.expand_current();
    app.move_down();
    app.expand_current();
    app.move_down();
    app.toggle_current_selection();
    assert_eq!(app.selection_state_for_asset(0, 0, 0), SelectionState::Selected);
    assert_eq!(app.selection_state_for_asset(0, 0, 1), SelectionState::Unselected);
    assert_eq!(app.selection_state_for_subcategory(0, 0), SelectionState::Partial);
    assert_eq!(app.selection_state_for_category(0), SelectionState::Unselected);
    assert_eq!(files(&app), vec!["a.mov"]);
    app.move_down();
    app.toggle_current_selection();
    assert_eq!(app.selection_state_for_subcategory(0, 0), SelectionState::Selected);
    assert_eq!(app.selection_state_for_category(0), SelectionState::Partial);
    app.toggle_current_selection();
    app.move_up();
    app.toggle_current_selection();
    assert!(files(&app).is_empty());
}

#[test]
fn toggling_a_subcategory_whose_assets_are_all_chosen_drops_them() {
    let mut app = browser();
    app.expand_current();
    app.move_down();
    app.expand_current();
    app.move_down();
    app.toggle_current_selection();
    app.move_down();
    app.toggle_current_selection();
    app.move_up();
    app.move_up();
    assert_eq!(
        app.current_node().unwrap().kind,
        TreeNodeKind::Subcategory { category: 0, subcategory: 0 }
    );
    assert!(app.selected_subcategories.is_empty());
    assert_eq!(app.selection_state_for_subcategory(0, 0), SelectionState::Selected);
    app.toggle_current_selection();
    assert_eq!(app.selection_state_for_subcategory(0, 0), SelectionState::Unselected);
    assert!(!app.asset_is_selected(0, 0, 0));
    assert!(!app.asset_is_selected(0, 0, 1));
    assert!(files(&app).is_empty());
    app.toggle_current_selection();
    assert_eq!(app.selection_state_for_subcategory(0, 0), SelectionState::Selected);
    assert_eq!(files(&app), vec!["a.mov", "b.mov"]);
}

#[test]
fn an_asset_stays_chosen_while_its_subcategory_is() {
    let mut app = browser();
    app.expand_current();
    app.move_down();
    app.toggle_current_selection();
    app.expand_current();
    app.move_down();
    app.toggle_current_selection();
    assert!(app.asset_is_selected(0, 0, 0));
    app.toggle_current_selection();
    assert!(app.asset_is_selected(0, 0, 0));
    assert!(app.selected_assets.is_empty());
}

#[test]
fn toggling_a_subcategory_off_drops_its_assets() {
    let mut app = browser();
    app.expand_current();
    app.move_down();
    app.expand_current();
    app.move_down();
    app.toggle_current_selection();
    app.move_up();
    app.toggle_current_selection();
    assert_eq!(files(&app), vec!["a.mov", "b.mov"]);
    app.toggle_current_selection();
    assert!(files(&app).is_empty());
    assert!(app.selected_assets.is_empty());
}

#[test]
fn no_file_is_downloaded_twice() {
    let mut app = browser();
    app.select_all();
    assert_eq!(files(&app), vec!["a.mov", "b.mov", "c.mov", "d.mov"]);
    assert_eq!(app.log_lines.last().unwrap(), "Selected all subcategories.");
    app.clear_selection();
    assert!(files(&app).is_empty());
    assert_eq!(app.log_lines.last().unwrap(), "Cleared selection.");
}

#[test]
fn places_outside_the_catalog_are_not_chosen() {
    let app = browser();
    assert_eq!(app.selection_state_for_category(9), SelectionState::Unselected);
    assert_eq!(app.selection_state_for_subcategory(0, 9), SelectionState::Unselected);
    assert!(!app.asset_is_selected(0, 0, 9));
    assert!(app.subcategory_indices_for_category(9).is_empty());
    assert_eq!(app.subcategory_indices_for_category(0), vec![(0, 0), (0, 1)]);
}

#[test]
fn what_is_there_is_told_by_file_names() {
    let app = browser();
    let present = vec!["a.mov".to_owned(), "b.mov".to_owned()];
    assert!(app.asset_exists(&present, 0, 0, 0));
    assert!(!app.asset_exists(&present, 0, 1, 0));
    assert!(!app.asset_exists(&present, 7, 0, 0));
    assert!(app.subcategory_downloaded(&present, 0, 0));
    assert!(!app.subcategory_downloaded(&present, 0, 1));
    assert!(!app.category_downloaded(&present, 0));
    let more = vec!["a.mov".to_owned(), "b.mov".to_owned(), "c.mov".to_owned()];
    assert!(app.category_downloaded(&more, 0));
    assert!(!app.category_downloaded(&more, 5));
}

#[test]
fn the_log_keeps_the_last_six_lines() {
    let mut app = browser();
    for i in 0..7 {
        app.log(format!("line {i}"));
    }
    assert_eq!(
        app.log_lines,
        vec!["line 1", "line 2", "line 3", "line 4", "line 5", "line 6"]
    );
}

#[test]
fn downloads_begin_with_what_is_chosen() {
    let mut app = browser();
    assert_eq!(app.begin_downloads().unwrap_err(), "No items selected.");
    app.toggle_current_selection();
    let plan = app.begin_downloads().unwrap();
    assert_eq!(plan.assets.len(), 3);
    assert_eq!(plan.output_dir, "out");
    assert_eq!(plan.threads, 3);
    assert_eq!(app.mode, Mode::Downloading);
    assert_eq!(
        app.log_lines,
        vec!["Downloading 3 assets with up to 3 workers to out"]
    );
    let status = app.status.as_ref().unwrap();
    assert_eq!(status.total_items, 3);
    assert_eq!(status.last_message, "Downloading 3 files into out");
    assert_eq!(status.thread_count, 3);
    assert!(!status.complete);
}

#[test]
fn at_least_one_worker_is_asked_for() {
    let mut app = browser();
    app.download_threads = 0;
    app.toggle_current_selection();
    assert_eq!(app.begin_downloads().unwrap().threads, 1);
}

fn started(index: usize) -> DownloadEvent {
    DownloadEvent::Started {
        index,
        total: 3,
        title: format!("T{index}"),
        file_name: format!("f{index}"),
        total_bytes: Some(9),
    }
}

#[test]
fn events_are_followed_in_the_status() {
    let mut app = browser();
    app.toggle_current_selection();
    app.begin_downloads().unwrap();
    app.handle_event(started(0));
    assert_eq!(app.log_lines.last().unwrap(), "Started 1/3: T0");
    assert_eq!(app.status.as_ref().unwrap().last_message, "Writing f0");
    app.handle_event(DownloadEvent::Progress {
        index: 0,
        bytes_downloaded: 4,
        total_bytes: Some(9),
    });
    app.handle_event(DownloadEvent::Progress {
        index: 2,
        bytes_downloaded: 4,
        total_bytes: None,
    });
    assert_eq!(app.status.as_ref().unwrap().active_jobs[&0].bytes_downloaded, 4);
    assert_eq!(app.status.as_ref().unwrap().active_jobs.len(), 1);
    app.handle_event(DownloadEvent::Finished { index: 0, path: "out/f0".to_owned() });
    assert_eq!(app.log_lines.last().unwrap(), "Saved out/f0");
    app.handle_event(DownloadEvent::Skipped { index: 1, path: "out/f1".to_owned() });
    assert_eq!(app.log_lines.last().unwrap(), "Skipped out/f1");
    app.handle_event(started(2));
    app.handle_event(DownloadEvent::Error { index: 2, message: "bad".to_owned() });
    assert_eq!(app.log_lines.last().unwrap(), "Error: bad");
    app.handle_event(DownloadEvent::Error { index: usize::MAX, message: "worse".to_owned() });
    let status = app.status.as_ref().unwrap();
    assert_eq!(status.completed_items, 3);
    assert_eq!(status.failed_items, 1);
    assert_eq!(status.last_message, "worse");
    assert!(status.active_jobs.is_empty());
    app.handle_event(DownloadEvent::Complete);
    let status = app.status.as_ref().unwrap();
    assert!(status.complete);
    assert_eq!(status.completed_items, status.total_items);
    assert_eq!(status.last_message, "Finished saving into out");
    assert_eq!(app.mode, Mode::Browsing);
    assert_eq!(app.log_lines.last().unwrap(), "All downloads complete.");
    assert_eq!(app.log_lines.len(), 6);
}

#[test]
fn events_without_a_status_are_only_logged() {
    let mut app = browser();
    app.handle_event(DownloadEvent::Finished { index: 0, path: "p".to_owned() });
    assert!(app.status.is_none());
    assert_eq!(app.log_lines, vec!["Ready to download.", "Saved p"]);
}

#[test]
fn removals_are_counted_and_logged() {
    let mut app = browser();
    let outcomes = vec![Removal::Removed, Removal::Missing, Removal::Removed];
    assert_eq!(app.remove_current_item(&outcomes), Ok(2));
    assert_eq!(
        app.log_lines,
        vec!["Ready to download.", "Removed out/a.mov", "Removed out/c.mov"]
    );
    assert_eq!(
        app.remove_current_item(&Vec::new()),
        Err("No downloaded files were found to remove.".to_owned())
    );
    let failing = vec![Removal::Removed, Removal::Failed("busy".to_owned()), Removal::Removed];
    assert_eq!(
        app.remove_current_item(&failing),
        Err("Failed to remove out/b.mov: busy".to_owned())
    );
    assert_eq!(app.log_lines.last().unwrap(), "Removed out/a.mov");
    app.finish_removal(&outcomes);
    assert_eq!(app.log_lines.last().unwrap(), "Removed 2 files.");
    app.finish_removal(&failing);
    assert_eq!(app.log_lines.last().unwrap(), "Failed to remove out/b.mov: busy");
}

#[test]
fn removals_go_on_until_one_fails() {
    let app = browser();
    assert_eq!(app.next_removal(&Vec::new()), Some(0));
    assert_eq!(app.next_removal(&vec![Removal::Missing, Removal::Removed]), Some(2));
    let all = vec![Removal::Missing, Removal::Removed, Removal::Missing];
    assert_eq!(app.next_removal(&all), None);
    assert_eq!(app.next_removal(&vec![Removal::Failed("busy".to_owned())]), None);
    let failed = vec![Removal::Removed, Removal::Failed("busy".to_owned())];
    assert_eq!(app.next_removal(&failed), None);
}

#[test]
fn outcomes_behind_a_failure_do_not_count() {
    let mut short = browser();
    let mut long = browser();
    let failed = || vec![Removal::Removed, Removal::Failed("busy".to_owned())];
    let mut more = failed();
    more.push(Removal::Removed);
    assert_eq!(short.remove_current_item(&failed()), long.remove_current_item(&more));
    assert_eq!(short.log_lines, long.log_lines);
}

#[test]
fn the_assets_under_the_cursor_follow_it() {
    let mut app = browser();
    assert_eq!(app.current_assets().len(), 3);
    app.expand_current();
    app.move_down();
    assert_eq!(app.current_assets().len(), 2);
    app.expand_current();
    app.move_down();
    app.move_down();
    let assets = app.current_assets();
    assert_eq!(assets.len(), 1);
    assert_eq!(assets[0].id, "b");
}

#[test]
fn keys_do_what_they_say() {
    let mut app = browser();
    assert!(matches!(app.handle_key(Key::Char('q')), Command::Quit));
    assert!(matches!(app.handle_key(Key::Down), Command::Continue));
    assert_eq!(app.selected_index, 1);
    app.handle_key(Key::Up);
    app.handle_key(Key::Right);
    assert_eq!(kinds(&app).len(), 4);
    app.handle_key(Key::Left);
    assert_eq!(kinds(&app).len(), 2);
    assert!(matches!(app.handle_key(Key::Enter), Command::Continue));
    assert_eq!(app.log_lines.last().unwrap(), "No items selected.");
    app.handle_key(Key::Char('a'));
    assert_eq!(files(&app).len(), 4);
    app.handle_key(Key::Char('c'));
    assert!(files(&app).is_empty());
    app.handle_key(Key::Char(' '));
    assert_eq!(files(&app).len(), 3);
    assert!(matches!(app.handle_key(Key::Other), Command::Continue));
    assert!(matches!(app.handle_key(Key::Char('z')), Command::Continue));
    match app.handle_key(Key::Char('x')) {
        Command::Remove(assets) => assert_eq!(assets.len(), 3),
        _ => panic!("nothing to remove"),
    }
    match app.handle_key(Key::Char('d')) {
        Command::Download(plan) => assert_eq!(plan.assets.len(), 3),
        _ => panic!("nothing to download"),
    }
}

#[test]
fn keys_leave_downloads_alone() {
    let mut app = browser();
    app.handle_key(Key::Char('a'));
    assert!(matches!(app.handle_key(Key::Enter), Command::Download(_)));
    let lines = app.log_lines.clone();
    assert!(matches!(app.handle_key(Key::Char('d')), Command::Continue));
    assert!(matches!(app.handle_key(Key::Enter), Command::Continue));
    assert!(matches!(app.handle_key(Key::Char('x')), Command::Continue));
    assert_eq!(app.log_lines, lines);
    assert_eq!(app.status.as_ref().unwrap().total_items, 4);
    assert!(matches!(app.handle_key(Key::Char('q')), Command::Quit));
}

#[test]
fn a_queue_that_cannot_start_is_accounted_for() {
    let mut app = browser();
    app.toggle_current_selection();
    let plan = app.begin_downloads().unwrap();
    for event in report_obstacle(&Obstacle::Client, &plan.assets, "no client") {
        app.handle_event(event);
    }
    app.handle_event(queue_complete());
    let status = app.status.as_ref().unwrap();
    assert_eq!(status.total_items, 3);
    assert_eq!(status.completed_items, 3);
    assert_eq!(status.failed_items, 3);
    assert!(status.active_jobs.is_empty());
    assert!(status.complete);
    assert_eq!(app.mode, Mode::Browsing);
}
