//! What the screen shows.
//!
//! Lines are made of pieces, each with its tone. What is on the disk is told by the caller, as the
//! names of the files that are present.

use vstd::prelude::*;

use crate::app::{App, Mode, State};
use crate::text;

pub mod details;
pub mod listing;
pub mod progress;

verus! {

/// How a piece of a line looks.
#[derive(Debug, Clone, Copy, PartialEq, Eq, Structural)]
pub enum Tone {
    Plain,
    Bold,
    Yellow,
    Cyan,
    BoldCyan,
    BoldWhite,
}

/// A piece of a line.
#[derive(Debug)]
pub struct Piece {
    pub words: String,
    pub tone: Tone,
}

/// The content of a [`Piece`].
pub struct Ink {
    pub words: Seq<char>,
    pub tone: Tone,
}

impl View for Piece {
    type V = Ink;

    open spec fn view(&self) -> Ink {
        Ink { words: self.words@, tone: self.tone }
    }
}

/// The content of a line.
pub open spec fn line(pieces: Seq<Piece>) -> Seq<Ink> {
    Seq::new(pieces.len(), |i: int| pieces[i]@)
}

/// The content of some lines.
pub open spec fn lines(list: Seq<Vec<Piece>>) -> Seq<Seq<Ink>> {
    Seq::new(list.len(), |i: int| line(list[i]@))
}

/// Words in a tone.
pub open spec fn ink(words: Seq<char>, tone: Tone) -> Ink {
    Ink { words, tone }
}

/// A line of words in one tone.
pub open spec fn single(words: Seq<char>, tone: Tone) -> Seq<Ink> {
    seq![ink(words, tone)]
}

/// A line with a label and a value.
pub open spec fn labeled(label: Seq<char>, value: Seq<char>) -> Seq<Ink> {
    seq![ink(label, Tone::Yellow), ink(value, Tone::Plain)]
}

/// Makes a piece of a line.
pub fn piece(words: &str, tone: Tone) -> (piece: Piece)
    ensures
        piece@ == ink(words@, tone),
{
    Piece { words: words.to_owned(), tone }
}

/// Adds a line of words in one tone.
pub fn add_single(list: &mut Vec<Vec<Piece>>, words: &str, tone: Tone)
    ensures
        lines(final(list)@) == lines(old(list)@).push(single(words@, tone)),
{
    let ghost before = lines(list@);
    let mut pieces: Vec<Piece> = Vec::new();
    pieces.push(piece(words, tone));
    assert(line(pieces@) =~= single(words@, tone));
    list.push(pieces);
    assert(lines(list@) =~= before.push(single(words@, tone)));
}

/// Adds a line with a label and a value.
pub fn add_labeled(list: &mut Vec<Vec<Piece>>, label: &str, value: &str)
    ensures
        lines(final(list)@) == lines(old(list)@).push(labeled(label@, value@)),
{
    let ghost before = lines(list@);
    let mut pieces: Vec<Piece> = Vec::new();
    pieces.push(piece(label, Tone::Yellow));
    pieces.push(piece(value, Tone::Plain));
    assert(line(pieces@) =~= labeled(label@, value@));
    list.push(pieces);
    assert(lines(list@) =~= before.push(labeled(label@, value@)));
}

// ---------------------------------------------------------------------------------------------
// The header
// ---------------------------------------------------------------------------------------------
/// The title: whether downloads are complete, under way, or neither.
pub open spec fn title(state: State) -> Seq<char> {
    if state.status matches Some(status) && status.complete {
        "awm complete"@
    } else if state.mode == Mode::Downloading {
        "awm downloading"@
    } else {
        "awm"@
    }
}

/// The header line.
pub open spec fn header(state: State) -> Seq<Ink> {
    seq![
        ink(title(state), Tone::BoldCyan),
        ink("  "@, Tone::Plain),
        ink(
            text::decimal(state.catalog.len()) + " categories  •  "@ + text::decimal(
                state.selected_subcategories.len(),
            ) + " selected subcategories  •  output: "@ + state.output_dir,
            Tone::Plain,
        ),
    ]
}

/// Writes the header line.
pub fn render_header(app: &App) -> (pieces: Vec<Piece>)
    ensures
        line(pieces@) == header(app@),
{
    let complete = match &app.status {
        Some(status) => status.complete,
        None => false,
    };
    let title = if complete {
        "awm complete"
    } else if app.mode == Mode::Downloading {
        "awm downloading"
    } else {
        "awm"
    };
    let mut summary = text::count_text(app.catalog.categories.len());
    summary.append(" categories  •  ");
    summary.append(text::count_text(app.selected_subcategories.len()).as_str());
    summary.append(" selected subcategories  •  output: ");
    summary.append(app.output_dir.as_str());
    let mut pieces: Vec<Piece> = Vec::new();
    pieces.push(piece(title, Tone::BoldCyan));
    pieces.push(piece("  ", Tone::Plain));
    pieces.push(piece(summary.as_str(), Tone::Plain));
    assert(line(pieces@) =~= header(app@));
    pieces
}

// ---------------------------------------------------------------------------------------------
// The footer
// ---------------------------------------------------------------------------------------------
/// The height of the footer: it is higher once there is a status.
pub fn footer_height(app: &App) -> (height: u16)
    ensures
        height == if app@.status is Some {
            14u16
        } else {
            10u16
        },
{
    if app.status.is_some() {
        14
    } else {
        10
    }
}

/// The messages: what the keys do, then the log with its last line first.
pub open spec fn messages(state: State) -> Seq<Seq<Ink>> {
    let help = seq![
        ink("Keys: "@, Tone::Yellow),
        ink("↑↓ move  "@, Tone::Plain),
        ink("right expand  "@, Tone::Plain),
        ink("left collapse  "@, Tone::Plain),
        ink("space select  "@, Tone::Plain),
        ink("a all  "@, Tone::Plain),
        ink("c clear  "@, Tone::Plain),
        ink("x remove  "@, Tone::Plain),
        ink("d download  "@, Tone::Plain),
        ink("q quit"@, Tone::Plain),
    ];
    seq![help] + Seq::new(
        state.log_lines.len(),
        |i: int| single(state.log_lines[state.log_lines.len() - 1 - i], Tone::Plain),
    )
}

/// Writes the messages.
pub fn render_log(app: &App) -> (list: Vec<Vec<Piece>>)
    ensures
        lines(list@) == messages(app@),
{
    let mut help: Vec<Piece> = Vec::new();
    help.push(piece("Keys: ", Tone::Yellow));
    help.push(piece("↑↓ move  ", Tone::Plain));
    help.push(piece("right expand  ", Tone::Plain));
    help.push(piece("left collapse  ", Tone::Plain));
    help.push(piece("space select  ", Tone::Plain));
    help.push(piece("a all  ", Tone::Plain));
    help.push(piece("c clear  ", Tone::Plain));
    help.push(piece("x remove  ", Tone::Plain));
    help.push(piece("d download  ", Tone::Plain));
    help.push(piece("q quit", Tone::Plain));
    let ghost goal = messages(app@);
    let ghost first = line(help@);
    assert(first =~= goal[0]);
    let mut list: Vec<Vec<Piece>> = Vec::new();
    list.push(help);
    let count = app.log_lines.len();
    let mut i: usize = 0;
    while i < count
        invariant
            i <= count == app.log_lines.len(),
            goal == messages(app@),
            goal.len() == count + 1,
            lines(list@) =~= goal.take(i + 1),
        decreases count - i,
    {
        let entry = app.log_lines[count - 1 - i].as_str();
        assert(app@.log_lines[count - 1 - i] == entry@);
        assert(goal[i + 1] == single(entry@, Tone::Plain));
        add_single(&mut list, entry, Tone::Plain);
        i = i + 1;
    }
    assert(goal.take(i + 1) =~= goal);
    list
}

/// The text of the queue's progress bar: how many files are done, where there is a status.
pub open spec fn queue_label(state: State) -> Option<Seq<char>> {
    match state.status {
        Some(status) => Some(
            text::decimal(status.completed_items as nat) + " / "@ + text::decimal(
                status.total_items as nat,
            ) + " files"@,
        ),
        None => None,
    }
}

/// Writes the text of the queue's progress bar.
pub fn overall_label(app: &App) -> (label: Option<String>)
    ensures
        text::text_option(label) == queue_label(app@),
{
    match &app.status {
        Some(status) => {
            let mut label = text::count_text(status.completed_items);
            label.append(" / ");
            label.append(text::count_text(status.total_items).as_str());
            label.append(" files");
            Some(label)
        },
        None => None,
    }
}

// ---------------------------------------------------------------------------------------------
// What the header and the footer tell
// ---------------------------------------------------------------------------------------------
/// The title tells that downloads are complete, whatever else is so; that they are under way; or
/// neither.
pub proof fn law_titles_tell_how_downloads_go(state: State)
    ensures
        state.status is Some && state.status->0.complete ==> title(state) == "awm complete"@,
        (state.status is None || !state.status->0.complete) && state.mode == Mode::Downloading
            ==> title(state) == "awm downloading"@,
        (state.status is None || !state.status->0.complete) && state.mode == Mode::Browsing
            ==> title(state) == "awm"@,
{
}

/// The header shows the title, how many categories there are, how many subcategories are chosen,
/// and where the files go.
pub proof fn law_headers_sum_up(state: State)
    ensures
        header(state).len() == 3,
        header(state)[0] == (Ink { words: title(state), tone: Tone::BoldCyan }),
        header(state)[1] == (Ink { words: "  "@, tone: Tone::Plain }),
        header(state)[2].tone == Tone::Plain,
        header(state)[2].words == text::decimal(state.catalog.len()) + " categories  •  "@
            + text::decimal(state.selected_subcategories.len())
            + " selected subcategories  •  output: "@ + state.output_dir,
{
}

/// Under the line on the keys stands the log, its last line first.
pub proof fn law_logs_are_shown_last_line_first(state: State, i: int)
    requires
        0 <= i < state.log_lines.len(),
    ensures
        messages(state).len() == state.log_lines.len() + 1,
        messages(state)[state.log_lines.len() - i] == seq![
            Ink { words: state.log_lines[i], tone: Tone::Plain },
        ],
{
    let at = state.log_lines.len() - i;
    assert(messages(state)[at] == single(state.log_lines[i], Tone::Plain));
}

/// The first line of the messages tells what each key does.
pub proof fn law_keys_are_told_first(state: State)
    ensures
        messages(state).len() > 0,
        messages(state)[0].len() == 10,
        messages(state)[0][0].words == "Keys: "@,
        messages(state)[0][1].words == "↑↓ move  "@,
        messages(state)[0][2].words == "right expand  "@,
        messages(state)[0][3].words == "left collapse  "@,
        messages(state)[0][4].words == "space select  "@,
        messages(state)[0][5].words == "a all  "@,
        messages(state)[0][6].words == "c clear  "@,
        messages(state)[0][7].words == "x remove  "@,
        messages(state)[0][8].words == "d download  "@,
        messages(state)[0][9].words == "q quit"@,
        messages(state)[0][0].tone == Tone::Yellow,
        forall|i: int| 0 < i < 10 ==> (#[trigger] messages(state)[0][i]).tone == Tone::Plain,
{
}

/// The text of the queue's progress bar tells how many files are done, and of how many.
pub proof fn law_queues_tell_how_many_are_done(state: State)
    ensures
        state.status is None ==> queue_label(state) is None,
        state.status matches Some(status) ==> queue_label(state) == Some(
            text::decimal(status.completed_items as nat) + " / "@ + text::decimal(
                status.total_items as nat,
            ) + " files"@,
        ),
{
}

/// Lines are made of their words and tones: one piece in one tone, or a label in yellow and a
/// value.
pub proof fn law_lines_are_made_of_their_words(words: Seq<char>, tone: Tone, value: Seq<char>)
    ensures
        single(words, tone) == seq![Ink { words, tone }],
        labeled(words, value) == seq![
            Ink { words, tone: Tone::Yellow },
            Ink { words: value, tone: Tone::Plain },
        ],
{
}

} // verus!
