//! What the screen shows of the line under the cursor and of the queue.

use vstd::prelude::*;

use crate::app;
use crate::app::tree;
use crate::app::{App, DownloadStatus, State, TreeNodeKind};
use crate::catalog;
use crate::catalog::{WallpaperAsset, WallpaperCategory, WallpaperSubcategory};
use crate::paths;
use crate::paths::join_path;
use crate::screen;
use crate::screen::{add_labeled, add_single, piece, Ink, Piece, Tone};
use crate::text;

verus! {

/// The line with a description, if there is one.
pub open spec fn info(description: Option<Seq<char>>) -> Seq<Seq<Ink>> {
    match description {
        Some(words) => seq![screen::labeled("Info: "@, words)],
        None => Seq::empty(),
    }
}

/// The lines on a category.
pub open spec fn category_details(it: catalog::Category) -> Seq<Seq<Ink>> {
    seq![
        screen::labeled("Category: "@, it.name),
        screen::labeled("ID: "@, it.id),
        screen::labeled("Subcategories: "@, text::decimal(it.subcategories.len())),
    ] + info(it.description) + seq![
        screen::single(" "@, Tone::Plain),
        screen::single("Use Right/Left to expand or collapse"@, Tone::Bold),
        screen::single("Space toggles selection for this category."@, Tone::Plain),
    ]
}

/// How many of the first `count` assets of a list have files that are there.
pub open spec fn count_there(
    assets: Seq<catalog::Asset>,
    present: Seq<Seq<char>>,
    count: nat,
) -> nat
    decreases count,
{
    if count == 0 {
        0
    } else {
        count_there(assets, present, (count - 1) as nat) + if present.contains(
            assets[count - 1].file_name,
        ) {
            1nat
        } else {
            0nat
        }
    }
}

/// The lines on an asset in the list of its subcategory.
pub open spec fn asset_entry(it: catalog::Asset) -> Seq<Seq<Ink>> {
    let first = seq![
        screen::ink(" - "@, Tone::Plain),
        screen::ink(
            it.title + " ("@ + it.file_name + "; id: "@ + it.id + "; "@ + it.extension + ")"@,
            Tone::Plain,
        ),
    ];
    match it.description {
        Some(words) => seq![
            first,
            seq![
                screen::ink("   "@, Tone::Plain),
                screen::ink("Info: "@, Tone::Yellow),
                screen::ink(words, Tone::Plain),
            ],
        ],
        None => seq![first],
    }
}

/// The lines on the first `count` assets of a subcategory.
pub open spec fn asset_entries(assets: Seq<catalog::Asset>, count: nat) -> Seq<Seq<Ink>>
    decreases count,
{
    if count == 0 {
        Seq::empty()
    } else {
        asset_entries(assets, (count - 1) as nat) + asset_entry(assets[count - 1])
    }
}

/// The lines on a subcategory.
pub open spec fn subcategory_details(
    it: catalog::Subcategory,
    present: Seq<Seq<char>>,
) -> Seq<Seq<Ink>> {
    let count = it.assets.len();
    seq![
        screen::labeled("Subcategory: "@, it.name),
        screen::labeled("ID: "@, it.id),
        screen::labeled("Assets: "@, text::decimal(count)),
        screen::labeled(
            "Downloaded: "@,
            text::decimal(count_there(it.assets, present, count)) + " / "@ + text::decimal(count),
        ),
    ] + info(it.description) + seq![screen::single(" "@, Tone::Plain)] + asset_entries(
        it.assets,
        count,
    )
}

/// The lines on an asset.
pub open spec fn asset_details(it: catalog::Asset, output_dir: Seq<char>) -> Seq<Seq<Ink>> {
    seq![
        screen::labeled("Asset: "@, it.title),
        screen::labeled("File: "@, it.file_name),
        screen::labeled("Path: "@, paths::joined_path(output_dir, it.file_name)),
    ]
}

/// The lines on what is under the cursor.
pub open spec fn current_details(state: State, present: Seq<Seq<char>>) -> Seq<Seq<Ink>> {
    match tree::current(state) {
        Some(node) => match node.kind {
            TreeNodeKind::Category(category) => category_details(state.catalog[category as int]),
            TreeNodeKind::Subcategory { category, subcategory } => subcategory_details(
                state.catalog[category as int].subcategories[subcategory as int],
                present,
            ),
            TreeNodeKind::Asset { category, subcategory, asset } => asset_details(
                state.catalog[category as int].subcategories[subcategory as int].assets[asset as int],
                state.output_dir,
            ),
        },
        None => Seq::empty(),
    }
}

/// The lines on the queue.
pub open spec fn status_details(status: Option<app::Status>) -> Seq<Seq<Ink>> {
    match status {
        Some(status) => seq![
            screen::single(" "@, Tone::Plain),
            screen::labeled("Status: "@, status.last_message),
            screen::labeled(
                "Queue: "@,
                text::decimal(status.completed_items as nat) + " / "@ + text::decimal(
                    status.total_items as nat,
                ) + " complete"@,
            ),
            screen::labeled(
                "Workers: "@,
                text::decimal(status.thread_count as nat) + " requested, "@ + text::decimal(
                    status.active_jobs.len(),
                ) + " active"@,
            ),
        ] + if status.failed_items > 0 {
            seq![screen::labeled("Errors: "@, text::decimal(status.failed_items as nat))]
        } else {
            Seq::empty()
        },
        None => Seq::empty(),
    }
}

/// The lines on what is under the cursor and on the queue.
pub open spec fn details(state: State, present: Seq<Seq<char>>) -> Seq<Seq<Ink>> {
    current_details(state, present) + status_details(state.status)
}

/// Adds the line with a description, if there is one.
fn add_info(list: &mut Vec<Vec<Piece>>, description: &Option<String>)
    ensures
        screen::lines(final(list)@) == screen::lines(old(list)@) + info(
            text::text_option(*description),
        ),
{
    let ghost before = screen::lines(list@);
    if let Some(words) = description {
        add_labeled(list, "Info: ", words.as_str());
    }
    assert(screen::lines(list@) =~= before + info(text::text_option(*description)));
}

/// Adds the lines on a category.
fn add_category(list: &mut Vec<Vec<Piece>>, it: &WallpaperCategory)
    ensures
        screen::lines(final(list)@) == screen::lines(old(list)@) + category_details(it@),
{
    let ghost before = screen::lines(list@);
    add_labeled(list, "Category: ", it.name.as_str());
    add_labeled(list, "ID: ", it.id.as_str());
    add_labeled(list, "Subcategories: ", text::count_text(it.subcategories.len()).as_str());
    add_info(list, &it.description);
    add_single(list, " ", Tone::Plain);
    add_single(list, "Use Right/Left to expand or collapse", Tone::Bold);
    add_single(list, "Space toggles selection for this category.", Tone::Plain);
    assert(screen::lines(list@) =~= before + category_details(it@));
}

/// Adds the lines on an asset in the list of its subcategory.
fn add_asset_entry(list: &mut Vec<Vec<Piece>>, it: &WallpaperAsset)
    ensures
        screen::lines(final(list)@) == screen::lines(old(list)@) + asset_entry(it@),
{
    let ghost before = screen::lines(list@);
    let ghost goal = asset_entry(it@);
    let mut words = it.title.clone();
    words.append(" (");
    words.append(it.file_name.as_str());
    words.append("; id: ");
    words.append(it.id.as_str());
    words.append("; ");
    words.append(it.extension.as_str());
    words.append(")");
    let mut first: Vec<Piece> = Vec::new();
    first.push(piece(" - ", Tone::Plain));
    first.push(piece(words.as_str(), Tone::Plain));
    assert(screen::line(first@) =~= goal[0]);
    list.push(first);
    assert(screen::lines(list@) =~= before.push(goal[0]));
    if let Some(description) = &it.description {
        let ghost sofar = screen::lines(list@);
        let mut second: Vec<Piece> = Vec::new();
        second.push(piece("   ", Tone::Plain));
        second.push(piece("Info: ", Tone::Yellow));
        second.push(piece(description.as_str(), Tone::Plain));
        assert(screen::line(second@) =~= goal[1]);
        list.push(second);
        assert(screen::lines(list@) =~= sofar.push(goal[1]));
    }
    assert(screen::lines(list@) =~= before + goal);
}

/// Counts the assets of a list whose files are among those `present`.
fn count_present(assets: &Vec<WallpaperAsset>, present: &Vec<String>) -> (count: usize)
    ensures
        count == count_there(catalog::assets(assets@), text::texts(present@), assets@.len()),
{
    let mut count: usize = 0;
    let mut i: usize = 0;
    while i < assets.len()
        invariant
            count <= i <= assets.len(),
            count == count_there(catalog::assets(assets@), text::texts(present@), i as nat),
        decreases assets.len() - i,
    {
        if text::holds_text(present, assets[i].file_name.as_str()) {
            count = count + 1;
        }
        i = i + 1;
    }
    count
}

/// Adds the lines on a subcategory.
fn add_subcategory(list: &mut Vec<Vec<Piece>>, it: &WallpaperSubcategory, present: &Vec<String>)
    ensures
        screen::lines(final(list)@) == screen::lines(old(list)@) + subcategory_details(
            it@,
            text::texts(present@),
        ),
{
    let ghost before = screen::lines(list@);
    let ghost goal = subcategory_details(it@, text::texts(present@));
    let total = text::count_text(it.assets.len());
    let mut downloaded = text::count_text(count_present(&it.assets, present));
    downloaded.append(" / ");
    downloaded.append(total.as_str());
    add_labeled(list, "Subcategory: ", it.name.as_str());
    add_labeled(list, "ID: ", it.id.as_str());
    add_labeled(list, "Assets: ", total.as_str());
    add_labeled(list, "Downloaded: ", downloaded.as_str());
    add_info(list, &it.description);
    add_single(list, " ", Tone::Plain);
    let ghost head = screen::lines(list@);
    let mut i: usize = 0;
    assert(head + asset_entries(it@.assets, 0) =~= head);
    while i < it.assets.len()
        invariant
            i <= it.assets.len(),
            screen::lines(list@) == head + asset_entries(it@.assets, i as nat),
        decreases it.assets.len() - i,
    {
        add_asset_entry(list, &it.assets[i]);
        i = i + 1;
        assert(screen::lines(list@) =~= head + asset_entries(it@.assets, i as nat));
    }
    assert(screen::lines(list@) =~= before + goal);
}

/// Adds the lines on an asset.
fn add_asset(list: &mut Vec<Vec<Piece>>, it: &WallpaperAsset, output_dir: &str)
    ensures
        screen::lines(final(list)@) == screen::lines(old(list)@) + asset_details(
            it@,
            output_dir@,
        ),
{
    let ghost before = screen::lines(list@);
    add_labeled(list, "Asset: ", it.title.as_str());
    add_labeled(list, "File: ", it.file_name.as_str());
    add_labeled(list, "Path: ", join_path(output_dir, it.file_name.as_str()).as_str());
    assert(screen::lines(list@) =~= before + asset_details(it@, output_dir@));
}

/// Adds the lines on the queue.
fn add_status(list: &mut Vec<Vec<Piece>>, status: &DownloadStatus)
    ensures
        screen::lines(final(list)@) == screen::lines(old(list)@) + status_details(Some(status@)),
{
    let ghost before = screen::lines(list@);
    assert(status@.active_jobs.dom() =~= status.active_jobs@.dom());
    let mut queue = text::count_text(status.completed_items);
    queue.append(" / ");
    queue.append(text::count_text(status.total_items).as_str());
    queue.append(" complete");
    let mut workers = text::count_text(status.thread_count);
    workers.append(" requested, ");
    workers.append(text::count_text(status.active_jobs.len()).as_str());
    workers.append(" active");
    add_single(list, " ", Tone::Plain);
    add_labeled(list, "Status: ", status.last_message.as_str());
    add_labeled(list, "Queue: ", queue.as_str());
    add_labeled(list, "Workers: ", workers.as_str());
    if status.failed_items > 0 {
        add_labeled(list, "Errors: ", text::count_text(status.failed_items).as_str());
    }
    assert(screen::lines(list@) =~= before + status_details(Some(status@)));
}

/// Writes the lines on what is under the cursor and on the queue.
pub fn render_details(app: &App, present: &Vec<String>) -> (list: Vec<Vec<Piece>>)
    requires
        app::sound(app@),
    ensures
        screen::lines(list@) == details(app@, text::texts(present@)),
{
    let ghost names = text::texts(present@);
    let mut list: Vec<Vec<Piece>> = Vec::new();
    assert(screen::lines(list@) =~= Seq::<Seq<Ink>>::empty());
    if let Some(node) = app.current_node() {
        proof {
            tree::lemma_place_of_line(app@, app@.selected_index as int);
        }
        match node.kind {
            TreeNodeKind::Category(category) => {
                add_category(&mut list, &app.catalog.categories[category]);
            },
            TreeNodeKind::Subcategory { category, subcategory } => {
                add_subcategory(
                    &mut list,
                    &app.catalog.categories[category].subcategories[subcategory],
                    present,
                );
            },
            TreeNodeKind::Asset { category, subcategory, asset } => {
                add_asset(
                    &mut list,
                    &app.catalog.categories[category].subcategories[subcategory].assets[asset],
                    app.output_dir.as_str(),
                );
            },
        }
    }
    assert(screen::lines(list@) =~= current_details(app@, names));
    if let Some(status) = &app.status {
        add_status(&mut list, status);
    }
    assert(screen::lines(list@) =~= details(app@, names));
    list
}

// ---------------------------------------------------------------------------------------------
// What the details tell
// ---------------------------------------------------------------------------------------------
/// As many assets are downloaded as there are whose files are there.
pub proof fn law_downloads_are_counted_by_files(
    assets: Seq<catalog::Asset>,
    present: Seq<Seq<char>>,
    count: nat,
)
    requires
        count <= assets.len(),
    ensures
        count_there(assets, present, count) == assets.take(count as int).filter(
            |it: catalog::Asset| present.contains(it.file_name),
        ).len(),
    decreases count,
{
    reveal(Seq::filter);
    if count > 0 {
        law_downloads_are_counted_by_files(assets, present, (count - 1) as nat);
        assert(assets.take(count as int).drop_last() =~= assets.take(count - 1));
    }
}

/// The lines on a category tell its name, its id, how many subcategories it has, and its
/// description, where it has one.
pub proof fn law_categories_are_described(it: catalog::Category)
    ensures
        ({
            let shown = category_details(it);
            &&& shown[0] == screen::labeled("Category: "@, it.name)
            &&& shown[1] == screen::labeled("ID: "@, it.id)
            &&& shown[2] == screen::labeled("Subcategories: "@, text::decimal(it.subcategories.len()))
            &&& it.description matches Some(words) ==> shown[3] == screen::labeled("Info: "@, words)
                && shown.len() == 7
            &&& it.description is None ==> shown.len() == 6
            &&& shown[shown.len() - 3] == screen::single(" "@, Tone::Plain)
            &&& shown[shown.len() - 2] == screen::single(
                "Use Right/Left to expand or collapse"@,
                Tone::Bold,
            )
            &&& shown[shown.len() - 1] == screen::single(
                "Space toggles selection for this category."@,
                Tone::Plain,
            )
        }),
{
}

/// The lines on a subcategory tell its name, its id, how many assets it has, how many of them are
/// downloaded, and its description, where it has one; then its assets follow, in their order.
pub proof fn law_subcategories_are_described(
    it: catalog::Subcategory,
    present: Seq<Seq<char>>,
)
    ensures
        ({
            let shown = subcategory_details(it, present);
            let there = it.assets.filter(|a: catalog::Asset| present.contains(a.file_name)).len();
            let start = if it.description is Some {
                6int
            } else {
                5
            };
            &&& shown[0] == screen::labeled("Subcategory: "@, it.name)
            &&& shown[1] == screen::labeled("ID: "@, it.id)
            &&& shown[2] == screen::labeled("Assets: "@, text::decimal(it.assets.len()))
            &&& shown[3] == screen::labeled(
                "Downloaded: "@,
                text::decimal(there) + " / "@ + text::decimal(it.assets.len()),
            )
            &&& it.description matches Some(words) ==> shown[4] == screen::labeled("Info: "@, words)
            &&& shown[start - 1] == screen::single(" "@, Tone::Plain)
            &&& shown.skip(start) == asset_entries(it.assets, it.assets.len())
        }),
{
    law_downloads_are_counted_by_files(it.assets, present, it.assets.len());
    assert(it.assets.take(it.assets.len() as int) =~= it.assets);
    let start = if it.description is Some {
        6int
    } else {
        5
    };
    assert(subcategory_details(it, present).skip(start) =~= asset_entries(
        it.assets,
        it.assets.len(),
    ));
}

/// In the list of its subcategory an asset is shown with its title, file, id and extension, and its
/// description under it, where it has one; the assets follow one another.
pub proof fn law_assets_are_listed(assets: Seq<catalog::Asset>, it: catalog::Asset)
    ensures
        asset_entries(assets.push(it), (assets.len() + 1) as nat) == asset_entries(
            assets,
            assets.len(),
        ) + asset_entry(it),
        asset_entry(it)[0] == seq![
            Ink { words: " - "@, tone: Tone::Plain },
            Ink {
                words: it.title + " ("@ + it.file_name + "; id: "@ + it.id + "; "@ + it.extension
                    + ")"@,
                tone: Tone::Plain,
            },
        ],
        it.description is None ==> asset_entry(it).len() == 1,
        it.description matches Some(words) ==> asset_entry(it).len() == 2 && asset_entry(it)[1]
            == seq![
            Ink { words: "   "@, tone: Tone::Plain },
            Ink { words: "Info: "@, tone: Tone::Yellow },
            Ink { words, tone: Tone::Plain },
        ],
{
    lemma_entries_of_front(assets, it, assets.len());
}

proof fn lemma_entries_of_front(assets: Seq<catalog::Asset>, it: catalog::Asset, count: nat)
    requires
        count <= assets.len(),
    ensures
        asset_entries(assets.push(it), count) == asset_entries(assets, count),
    decreases count,
{
    if count > 0 {
        lemma_entries_of_front(assets, it, (count - 1) as nat);
    }
}

/// The lines on an asset tell its title, its file, and where that goes.
pub proof fn law_assets_are_described(it: catalog::Asset, output_dir: Seq<char>)
    ensures
        asset_details(it, output_dir) == seq![
            screen::labeled("Asset: "@, it.title),
            screen::labeled("File: "@, it.file_name),
            screen::labeled("Path: "@, paths::joined_path(output_dir, it.file_name)),
        ],
{
}

/// The details are those of what is under the cursor, with those of the queue behind them.
pub proof fn law_details_are_those_of_the_line(state: State, present: Seq<Seq<char>>)
    ensures
        ({
            let queue = status_details(state.status);
            match tree::current(state) {
                Some(node) => match node.kind {
                    TreeNodeKind::Category(c) => details(state, present) == category_details(
                        state.catalog[c as int],
                    ) + queue,
                    TreeNodeKind::Subcategory { category: c, subcategory: s } => details(
                        state,
                        present,
                    ) == subcategory_details(
                        state.catalog[c as int].subcategories[s as int],
                        present,
                    ) + queue,
                    TreeNodeKind::Asset { category: c, subcategory: s, asset: a } => details(
                        state,
                        present,
                    ) == asset_details(
                        state.catalog[c as int].subcategories[s as int].assets[a as int],
                        state.output_dir,
                    ) + queue,
                },
                None => details(state, present) == queue,
            }
        }),
{
    let queue = status_details(state.status);
    assert(Seq::<Seq<Ink>>::empty() + queue =~= queue);
}

/// The lines on the queue tell its last message, how many files are complete and of how many, how
/// many workers were asked for and how many downloads are under way, and, where there are any, how
/// many errors.
pub proof fn law_queues_are_described(status: app::Status)
    ensures
        status_details(None).len() == 0,
        ({
            let shown = status_details(Some(status));
            &&& shown[0] == screen::single(" "@, Tone::Plain)
            &&& shown[1] == screen::labeled("Status: "@, status.last_message)
            &&& shown[2] == screen::labeled(
                "Queue: "@,
                text::decimal(status.completed_items as nat) + " / "@ + text::decimal(
                    status.total_items as nat,
                ) + " complete"@,
            )
            &&& shown[3] == screen::labeled(
                "Workers: "@,
                text::decimal(status.thread_count as nat) + " requested, "@ + text::decimal(
                    status.active_jobs.len(),
                ) + " active"@,
            )
            &&& status.failed_items == 0 ==> shown.len() == 4
            &&& status.failed_items > 0 ==> shown.len() == 5 && shown[4] == screen::labeled(
                "Errors: "@,
                text::decimal(status.failed_items as nat),
            )
        }),
{
}

} // verus!
