//! What the keys do.

use vstd::prelude::*;

use crate::app;
use crate::app::downloads;
use crate::app::selection;
use crate::app::tree;
use crate::app::{App, Mode, State};
use crate::catalog;
use crate::catalog::WallpaperAsset;
use crate::downloader::DownloadPlan;

verus! {

/// A key that was pressed.
#[derive(Debug, Clone, Copy, PartialEq, Eq, Structural)]
pub enum Key {
    Up,
    Down,
    Left,
    Right,
    Enter,
    Char(char),
    Other,
}

/// What is left to be done after a key.
#[derive(Debug)]
pub enum Command {
    Continue,
    Quit,
    /// Remove the files of these assets, one after another for as long as [`App::next_removal`]
    /// gives a number; then finish the removal with what came of each.
    Remove(Vec<WallpaperAsset>),
    /// Start this queue.
    Download(DownloadPlan),
}

/// Whether a key starts downloads.
pub open spec fn starts(key: Key) -> bool {
    key == Key::Enter || key == Key::Char('d')
}

/// The state after a key.
pub open spec fn after_key(state: State, key: Key) -> State {
    match key {
        Key::Up => tree::moved_up(state),
        Key::Down => tree::moved_down(state),
        Key::Right => tree::expanded(state),
        Key::Left => tree::collapsed(state),
        Key::Char(' ') => selection::toggled(state),
        Key::Char('a') => selection::all_taken(state),
        Key::Char('c') => selection::cleared(state),
        _ => if starts(key) && state.mode == Mode::Browsing {
            let count = selection::selection(state).len();
            if count == 0 {
                app::logged(state, "No items selected."@)
            } else {
                downloads::begun(state, count)
            }
        } else {
            state
        },
    }
}

impl App {
    /// Does what a key asks for, and says what is left to be done.
    pub fn handle_key(&mut self, key: Key) -> (command: Command)
        requires
            app::sound(old(self)@),
        ensures
            final(self)@ == after_key(old(self)@, key),
            app::sound(final(self)@),
            match command {
                Command::Quit => key == Key::Char('q'),
                Command::Remove(assets) => key == Key::Char('x') && old(self)@.mode
                    == Mode::Browsing && catalog::assets(assets@) == selection::under_cursor(
                    old(self)@,
                ),
                Command::Download(plan) => {
                    let chosen = selection::selection(old(self)@);
                    &&& starts(key) && old(self)@.mode == Mode::Browsing && chosen.len() > 0
                    &&& catalog::assets(plan.assets@) == chosen
                    &&& plan.output_dir@ == old(self)@.output_dir
                    &&& plan.threads == downloads::thread_count(old(self)@)
                },
                Command::Continue => {
                    &&& key != Key::Char('q')
                    &&& old(self)@.mode == Mode::Browsing ==> key != Key::Char('x') && (starts(key)
                        ==> selection::selection(old(self)@).len() == 0)
                },
            },
    {
        match key {
            Key::Up => self.move_up(),
            Key::Down => self.move_down(),
            Key::Right => self.expand_current(),
            Key::Left => self.collapse_current(),
            Key::Enter => return self.handle_start(),
            Key::Char(c) => {
                if c == 'q' {
                    return Command::Quit;
                } else if c == ' ' {
                    self.toggle_current_selection();
                } else if c == 'a' {
                    self.select_all();
                } else if c == 'c' {
                    self.clear_selection();
                } else if c == 'x' {
                    if self.mode == Mode::Browsing {
                        return Command::Remove(self.current_assets());
                    }
                } else if c == 'd' {
                    return self.handle_start();
                }
            },
            Key::Other => {},
        }
        Command::Continue
    }

    /// Starts downloads, unless some are under way.
    fn handle_start(&mut self) -> (command: Command)
        requires
            app::sound(old(self)@),
        ensures
            final(self)@ == after_key(old(self)@, Key::Enter),
            app::sound(final(self)@),
            match command {
                Command::Download(plan) => {
                    let chosen = selection::selection(old(self)@);
                    &&& old(self)@.mode == Mode::Browsing && chosen.len() > 0
                    &&& catalog::assets(plan.assets@) == chosen
                    &&& plan.output_dir@ == old(self)@.output_dir
                    &&& plan.threads == downloads::thread_count(old(self)@)
                },
                Command::Continue => old(self)@.mode == Mode::Browsing ==> selection::selection(
                    old(self)@,
                ).len() == 0,
                _ => false,
            },
    {
        if self.mode == Mode::Browsing {
            match self.begin_downloads() {
                Ok(plan) => return Command::Download(plan),
                Err(message) => self.log(message),
            }
        }
        Command::Continue
    }
}

/// While downloads are under way, no key starts others or changes how they go.
pub proof fn law_keys_leave_downloads_alone(state: State, key: Key)
    requires
        state.mode == Mode::Downloading,
    ensures
        after_key(state, key).status == state.status,
        after_key(state, key).mode == state.mode,
{
}

/// Each key does its own thing: the arrows move, expand and collapse; the space bar toggles, `a`
/// chooses everything, and `c` nothing. `d` and the enter key begin to download what is chosen,
/// where something is and no downloads are under way. Every other key changes nothing.
pub proof fn law_each_key_does_its_own_thing(state: State, key: Key)
    ensures
        after_key(state, Key::Up) == tree::moved_up(state),
        after_key(state, Key::Down) == tree::moved_down(state),
        after_key(state, Key::Right) == tree::expanded(state),
        after_key(state, Key::Left) == tree::collapsed(state),
        after_key(state, Key::Char(' ')) == selection::toggled(state),
        after_key(state, Key::Char('a')) == selection::all_taken(state),
        after_key(state, Key::Char('c')) == selection::cleared(state),
        after_key(state, Key::Char('d')) == after_key(state, Key::Enter),
        state.mode == Mode::Downloading ==> after_key(state, Key::Enter) == state,
        state.mode == Mode::Browsing && selection::selection(state).len() > 0 ==> after_key(
            state,
            Key::Enter,
        ) == downloads::begun(state, selection::selection(state).len()),
        state.mode == Mode::Browsing && selection::selection(state).len() == 0 ==> after_key(
            state,
            Key::Enter,
        ) == app::logged(state, "No items selected."@),
        key == Key::Other || (key matches Key::Char(c) && c != ' ' && c != 'a' && c != 'c' && c
            != 'd') ==> after_key(state, key) == state,
        starts(key) == (key == Key::Enter || key == Key::Char('d')),
{
}

} // verus!
