use std::collections::BTreeMap;

use awm::app::{ActiveDownloadStatus, App, DownloadStatus, Mode};
use awm::catalog::{WallpaperAsset, WallpaperCatalog, WallpaperCategory, WallpaperSubcategory};
use awm::screen::details::render_details;
use awm::screen::listing::render_tree;
use awm::screen::progress::{
    active_height, progress_bar, render_progress, shown_active_jobs, truncate_label, Measure,
};
use awm::screen::{footer_height, overall_label, render_header, render_log, Piece, Tone};

fn browser() -> App {
    let asset = |name: &str, description: Option<&str>| WallpaperAsset {
        id: name.to_owned(),
        title: format!("T{name}"),
        description: description.map(|text| text.to_owned()),
        url: "u".to_owned(),
        file_name: format!("{name}.mov"),
        extension: ".mov".to_owned(),
    };
    let catalog = WallpaperCatalog {
        categories: vec![WallpaperCategory {
            id: "c".to_owned(),
            name: "Cat".to_owned(),
            description: Some("about".to_owned()),
            subcategories: vec![WallpaperSubcategory {
                id: "s".to_owned(),
                name: "Sub".to_owned(),
                description: None,
                assets: vec![asset("a", None), asset("b", Some("more"))],
            }],
        }],
    };
    App::new(catalog, "/out".to_owned(), 2)
}

fn status(jobs: usize) -> DownloadStatus {
    let mut active_jobs = BTreeMap::new();
    for index in (0..jobs).rev() {
        active_jobs.insert(
            index * 10,
            ActiveDownloadStatus {
                title: format!("Title {index}"),
                file_name: format!("f{index}.mov"),
                bytes_downloaded: 7,
                total_bytes: if index == 0 { None } else { Some(9) },
            },
        );
    }
    DownloadStatus {
        total_items: 8,
        completed_items: 3,
        failed_items: 1,
        active_jobs,
        last_message: "going".to_owned(),
        thread_count: 2,
        complete: false,
    }
}

fn measures(count: usize) -> Vec<Measure> {
    (0..count).map(|i| Measure { filled: i * 4, bytes: format!("{i}.0 / 9.0 MiB") }).collect()
}

fn words(line: &[Piece]) -> String {
    line.iter().map(|piece| piece.words.as_str()).collect()
}

fn texts(lines: &[Vec<Piece>]) -> Vec<String> {
    lines.iter().map(|line| words(line)).collect()
}

#[test]
fn labels_are_cut_with_dots() {
    assert_eq!(truncate_label("short", 5), "short");
    assert_eq!(truncate_label("longer", 5), "longe...");
    assert_eq!(truncate_label("äöüß", 2), "äö...");
    assert_eq!(truncate_label("", 0), "");
    assert_eq!(truncate_label("x", 0), "...");
}

#[test]
fn bars_have_one_width() {
    assert_eq!(progress_bar(3, 12), "[===         ]");
    assert_eq!(progress_bar(0, 2), "[  ]");
    assert_eq!(progress_bar(9, 2), "[==]");
}

#[test]
fn the_header_tells_how_downloads_go() {
    let mut app = browser();
    let pieces = render_header(&app);
    assert_eq!(
        words(&pieces),
        "awm  1 categories  •  0 selected subcategories  •  output: /out"
    );
    assert_eq!(pieces[0].tone, Tone::BoldCyan);
    app.mode = Mode::Downloading;
    assert_eq!(render_header(&app)[0].words, "awm downloading");
    app.status = Some(DownloadStatus { complete: true, ..status(0) });
    assert_eq!(render_header(&app)[0].words, "awm complete");
    app.select_all();
    assert!(words(&render_header(&app)).contains("1 selected subcategories"));
}

#[test]
fn heights_follow_the_status() {
    let mut app = browser();
    assert_eq!(footer_height(&app), 10);
    assert_eq!(active_height(&app), 3);
    for (jobs, height) in [(0, 3), (1, 3), (4, 6), (5, 7), (9, 7)] {
        app.status = Some(status(jobs));
        assert_eq!(footer_height(&app), 14);
        assert_eq!(active_height(&app), height);
    }
}

#[test]
fn messages_start_with_the_keys_and_the_last_line() {
    let mut app = browser();
    app.log("second".to_owned());
    let lines = render_log(&app);
    assert_eq!(
        texts(&lines),
        vec![
            "Keys: ↑↓ move  right expand  left collapse  space select  a all  c clear  \
             x remove  d download  q quit",
            "second",
            "Ready to download.",
        ]
    );
    assert_eq!(lines[0][0].tone, Tone::Yellow);
}

#[test]
fn the_queue_is_labeled() {
    let mut app = browser();
    assert_eq!(overall_label(&app), None);
    app.status = Some(status(0));
    assert_eq!(overall_label(&app), Some("3 / 8 files".to_owned()));
}

#[test]
fn the_tree_marks_what_is_chosen_and_what_is_there() {
    let mut app = browser();
    app.expand_current();
    app.move_down();
    app.expand_current();
    app.move_down();
    app.toggle_current_selection();
    let none: Vec<String> = Vec::new();
    let lines = render_tree(&app, &none);
    assert_eq!(
        texts(&lines),
        vec![
            "[ ] ▾ Cat (2)",
            "[-] ▾   Sub (2)",
            "[x]       Ta (1)",
            "[ ]       Tb (1)",
        ]
    );
    assert_eq!(lines[2][5].tone, Tone::BoldWhite);
    assert_eq!(lines[1][5].tone, Tone::Plain);
    let all = vec!["a.mov".to_owned(), "b.mov".to_owned()];
    assert_eq!(
        texts(&render_tree(&app, &all)),
        vec![
            "[ ] ▾ Cat (Downloaded) (2)",
            "[-] ▾   Sub (Downloaded) (2)",
            "[x]       Ta (Downloaded) (1)",
            "[x]       Tb (Downloaded) (1)",
        ]
    );
    app.move_up();
    app.move_up();
    app.collapse_current();
    assert_eq!(texts(&render_tree(&app, &none)), vec!["[ ] ▸ Cat (2)"]);
}

#[test]
fn details_follow_the_cursor() {
    let mut app = browser();
    let present = vec!["b.mov".to_owned()];
    assert_eq!(
        texts(&render_details(&app, &present)),
        vec![
            "Category: Cat",
            "ID: c",
            "Subcategories: 1",
            "Info: about",
            " ",
            "Use Right/Left to expand or collapse",
            "Space toggles selection for this category.",
        ]
    );
    app.expand_current();
    app.move_down();
    assert_eq!(
        texts(&render_details(&app, &present)),
        vec![
            "Subcategory: Sub",
            "ID: s",
            "Assets: 2",
            "Downloaded: 1 / 2",
            " ",
            " - Ta (a.mov; id: a; .mov)",
            " - Tb (b.mov; id: b; .mov)",
            "   Info: more",
        ]
    );
    app.expand_current();
    app.move_down();
    app.status = Some(status(2));
    assert_eq!(
        texts(&render_details(&app, &present)),
        vec![
            "Asset: Ta",
            "File: a.mov",
            "Path: /out/a.mov",
            " ",
            "Status: going",
            "Queue: 3 / 8 complete",
            "Workers: 2 requested, 2 active",
            "Errors: 1",
        ]
    );
    app.status = Some(DownloadStatus { failed_items: 0, ..status(0) });
    assert_eq!(render_details(&app, &present).len(), 7);
}

#[test]
fn progress_shows_four_downloads_and_counts_the_rest() {
    let mut app = browser();
    assert_eq!(render_progress(&app, &Vec::new()), vec!["No active download yet."]);
    assert!(shown_active_jobs(&app).is_empty());
    app.status = Some(status(0));
    assert_eq!(render_progress(&app, &Vec::new()), vec!["Waiting for workers to start."]);
    app.status = Some(status(6));
    assert_eq!(shown_active_jobs(&app), vec![0, 10, 20, 30]);
    assert_eq!(
        render_progress(&app, &measures(4)),
        vec![
            "#1 [            ]  7 bytes  Title 0 (f0.mov)",
            "#11 [====        ]  1.0 / 9.0 MiB  Title 1 (f1.mov)",
            "#21 [========    ]  2.0 / 9.0 MiB  Title 2 (f2.mov)",
            "#31 [============]  3.0 / 9.0 MiB  Title 3 (f3.mov)",
            "... and 2 more active download(s)",
        ]
    );
    app.status = Some(status(2));
    assert_eq!(render_progress(&app, &measures(2)).len(), 2);
}

#[test]
fn progress_fits_in_its_part_of_the_footer() {
    let mut app = browser();
    for jobs in 1..9 {
        app.status = Some(status(jobs));
        let shown = shown_active_jobs(&app).len();
        let lines = render_progress(&app, &measures(shown)).len();
        assert_eq!(lines + 2, active_height(&app) as usize);
    }
}

#[test]
fn the_bar_is_empty_where_no_total_is_known() {
    let mut app = browser();
    let full = vec![Measure { filled: 12, bytes: "0.0 / 0.0 MiB".to_owned() }];
    app.status = Some(status(1));
    assert_eq!(
        render_progress(&app, &full),
        vec!["#1 [            ]  7 bytes  Title 0 (f0.mov)"]
    );
    let mut zero = status(1);
    zero.active_jobs.get_mut(&0).unwrap().total_bytes = Some(0);
    app.status = Some(zero);
    assert_eq!(
        render_progress(&app, &full),
        vec!["#1 [            ]  0.0 / 0.0 MiB  Title 0 (f0.mov)"]
    );
}
