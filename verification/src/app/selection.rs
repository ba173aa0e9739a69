//! What is chosen, and what of it is there already.

use vstd::hash_set::StringHashSet;
use vstd::prelude::*;

use crate::app;
use crate::app::tree;
use crate::app::{App, SelectionState, State, TreeNodeKind};
use crate::catalog;
use crate::catalog::WallpaperAsset;
use crate::text;

verus! {

// ---------------------------------------------------------------------------------------------
// How much is chosen
// ---------------------------------------------------------------------------------------------
/// Whether an asset is chosen, by itself or with its subcategory.
pub open spec fn chosen(state: State, category: usize, subcategory: usize, asset: usize) -> bool {
    ||| state.selected_assets.contains((category, subcategory, asset))
    ||| state.selected_subcategories.contains((category, subcategory))
}

/// How much of an asset is chosen.
pub open spec fn asset_selection(
    state: State,
    category: usize,
    subcategory: usize,
    asset: usize,
) -> SelectionState {
    if chosen(state, category, subcategory, asset) {
        SelectionState::Selected
    } else {
        SelectionState::Unselected
    }
}

/// Whether every asset of a subcategory is chosen.
pub open spec fn all_chosen(state: State, category: usize, subcategory: usize) -> bool {
    forall|a: usize|
        app::has_asset(state.catalog, category, subcategory, a) ==> #[trigger] chosen(
            state,
            category,
            subcategory,
            a,
        )
}

/// Whether some asset of a subcategory is chosen.
pub open spec fn some_chosen(state: State, category: usize, subcategory: usize) -> bool {
    exists|a: usize|
        app::has_asset(state.catalog, category, subcategory, a) && #[trigger] chosen(
            state,
            category,
            subcategory,
            a,
        )
}

/// How much of a subcategory is chosen: all of it where it is chosen itself, else as its assets
/// say. Nothing of one without assets is.
pub open spec fn subcategory_selection(
    state: State,
    category: usize,
    subcategory: usize,
) -> SelectionState {
    if state.selected_subcategories.contains((category, subcategory)) {
        SelectionState::Selected
    } else if !some_chosen(state, category, subcategory) {
        SelectionState::Unselected
    } else if all_chosen(state, category, subcategory) {
        SelectionState::Selected
    } else {
        SelectionState::Partial
    }
}

/// Whether a subcategory is in the catalog and chosen as a whole.
pub open spec fn wholly_chosen(state: State, category: usize, subcategory: usize) -> bool {
    app::has_subcategory(state.catalog, category, subcategory) && subcategory_selection(
        state,
        category,
        subcategory,
    ) == SelectionState::Selected
}

/// How much of a category is chosen. Only subcategories that are chosen as a whole count.
pub open spec fn category_selection(state: State, category: usize) -> SelectionState {
    if !(exists|s: usize| #[trigger] wholly_chosen(state, category, s)) {
        SelectionState::Unselected
    } else if forall|s: usize|
        app::has_subcategory(state.catalog, category, s) ==> #[trigger] wholly_chosen(
            state,
            category,
            s,
        ) {
        SelectionState::Selected
    } else {
        SelectionState::Partial
    }
}

impl App {
    /// Tells whether an asset is chosen, by itself or with its subcategory.
    pub fn asset_is_selected(&self, category: usize, subcategory: usize, asset: usize) -> (is: bool)
        ensures
            is == chosen(self@, category, subcategory, asset),
    {
        self.selected_assets.contains(&(category, subcategory, asset))
            || self.selected_subcategories.contains(&(category, subcategory))
    }

    /// Tells how much of an asset is chosen.
    pub fn selection_state_for_asset(&self, category: usize, subcategory: usize, asset: usize) -> (
    selection: SelectionState)
        ensures
            selection == asset_selection(self@, category, subcategory, asset),
    {
        if self.asset_is_selected(category, subcategory, asset) {
            SelectionState::Selected
        } else {
            SelectionState::Unselected
        }
    }

    /// Tells how much of a subcategory is chosen.
    pub fn selection_state_for_subcategory(&self, category: usize, subcategory: usize) -> (selection:
        SelectionState)
        ensures
            selection == subcategory_selection(self@, category, subcategory),
    {
        if self.selected_subcategories.contains(&(category, subcategory)) {
            return SelectionState::Selected;
        }
        if category >= self.catalog.categories.len() || subcategory
            >= self.catalog.categories[category].subcategories.len() {
            return SelectionState::Unselected;
        }
        let assets = &self.catalog.categories[category].subcategories[subcategory].assets;
        let mut some = false;
        let mut all = true;
        let mut i: usize = 0;
        assert(catalog::assets(assets@)
            == self@.catalog[category as int].subcategories[subcategory as int].assets);
        while i < assets.len()
            invariant
                i <= assets.len(),
                app::has_subcategory(self@.catalog, category, subcategory),
                catalog::assets(assets@)
                    == self@.catalog[category as int].subcategories[subcategory as int].assets,
                some == exists|a: usize| a < i && #[trigger] chosen(self@, category, subcategory, a),
                all == forall|a: usize|
                    a < i ==> #[trigger] chosen(self@, category, subcategory, a),
            decreases assets.len() - i,
        {
            if self.asset_is_selected(category, subcategory, i) {
                some = true;
            } else {
                all = false;
            }
            i = i + 1;
        }
        if !some {
            SelectionState::Unselected
        } else if all {
            SelectionState::Selected
        } else {
            SelectionState::Partial
        }
    }

    /// Tells how much of a category is chosen.
    pub fn selection_state_for_category(&self, category: usize) -> (selection: SelectionState)
        ensures
            selection == category_selection(self@, category),
    {
        if category >= self.catalog.categories.len() {
            return SelectionState::Unselected;
        }
        let count = self.catalog.categories[category].subcategories.len();
        let mut some = false;
        let mut all = true;
        let mut i: usize = 0;
        while i < count
            invariant
                i <= count,
                app::has_category(self@.catalog, category),
                count == self@.catalog[category as int].subcategories.len(),
                some == exists|s: usize| s < i && #[trigger] wholly_chosen(self@, category, s),
                all == forall|s: usize| s < i ==> #[trigger] wholly_chosen(self@, category, s),
            decreases count - i,
        {
            let selection = self.selection_state_for_subcategory(category, i);
            assert(wholly_chosen(self@, category, i) == (selection == SelectionState::Selected));
            if selection == SelectionState::Selected {
                some = true;
            } else {
                all = false;
            }
            i = i + 1;
        }
        if !some {
            SelectionState::Unselected
        } else if all {
            SelectionState::Selected
        } else {
            SelectionState::Partial
        }
    }

    /// Lists the subcategories of a category.
    pub fn subcategory_indices_for_category(&self, category: usize) -> (keys: Vec<(usize, usize)>)
        ensures
            keys@ == if category < self@.catalog.len() {
                Seq::new(
                    self@.catalog[category as int].subcategories.len(),
                    |s: int| (category, s as usize),
                )
            } else {
                Seq::empty()
            },
    {
        let mut keys: Vec<(usize, usize)> = Vec::new();
        if category < self.catalog.categories.len() {
            let count = self.catalog.categories[category].subcategories.len();
            let mut i: usize = 0;
            while i < count
                invariant
                    i <= count,
                    keys@ =~= Seq::new(i as nat, |s: int| (category, s as usize)),
                decreases count - i,
            {
                keys.push((category, i));
                i = i + 1;
            }
        }
        keys
    }
}

// ---------------------------------------------------------------------------------------------
// What is there already
// ---------------------------------------------------------------------------------------------
/// Whether the file of an asset is among those that are there.
pub open spec fn there(
    state: State,
    present: Seq<Seq<char>>,
    category: usize,
    subcategory: usize,
    asset: usize,
) -> bool {
    app::has_asset(state.catalog, category, subcategory, asset) && present.contains(
        state.catalog[category as int].subcategories[subcategory as int].assets[asset as int].file_name,
    )
}

/// Whether a subcategory has assets and the files of all of them are there.
pub open spec fn subcategory_there(
    state: State,
    present: Seq<Seq<char>>,
    category: usize,
    subcategory: usize,
) -> bool {
    &&& app::has_asset(state.catalog, category, subcategory, 0)
    &&& forall|a: usize|
        app::has_asset(state.catalog, category, subcategory, a) ==> #[trigger] there(
            state,
            present,
            category,
            subcategory,
            a,
        )
}

/// Whether a category has subcategories and all of them are there.
pub open spec fn category_there(
    state: State,
    present: Seq<Seq<char>>,
    category: usize,
) -> bool {
    &&& app::has_subcategory(state.catalog, category, 0)
    &&& forall|s: usize|
        app::has_subcategory(state.catalog, category, s) ==> #[trigger] subcategory_there(
            state,
            present,
            category,
            s,
        )
}

impl App {
    /// Tells whether the file of an asset is among the files `present`.
    pub fn asset_exists(
        &self,
        present: &Vec<String>,
        category: usize,
        subcategory: usize,
        asset: usize,
    ) -> (found: bool)
        ensures
            found == there(self@, text::texts(present@), category, subcategory, asset),
    {
        if category >= self.catalog.categories.len() {
            return false;
        }
        let subcategories = &self.catalog.categories[category].subcategories;
        if subcategory >= subcategories.len() {
            return false;
        }
        let assets = &subcategories[subcategory].assets;
        if asset >= assets.len() {
            return false;
        }
        text::holds_text(present, assets[asset].file_name.as_str())
    }

    /// Tells whether all files of a subcategory are among the files `present`.
    pub fn subcategory_downloaded(
        &self,
        present: &Vec<String>,
        category: usize,
        subcategory: usize,
    ) -> (downloaded: bool)
        ensures
            downloaded == subcategory_there(self@, text::texts(present@), category, subcategory),
    {
        if category >= self.catalog.categories.len() || subcategory
            >= self.catalog.categories[category].subcategories.len() {
            return false;
        }
        let count = self.catalog.categories[category].subcategories[subcategory].assets.len();
        let ghost names = text::texts(present@);
        let mut i: usize = 0;
        while i < count
            invariant
                i <= count,
                names == text::texts(present@),
                app::has_subcategory(self@.catalog, category, subcategory),
                count
                    == self@.catalog[category as int].subcategories[subcategory as int].assets.len(),
                forall|a: usize|
                    a < i ==> #[trigger] there(self@, names, category, subcategory, a),
            decreases count - i,
        {
            if !self.asset_exists(present, category, subcategory, i) {
                assert(app::has_asset(self@.catalog, category, subcategory, i));
                return false;
            }
            i = i + 1;
        }
        count > 0
    }

    /// Tells whether all files of a category are among the files `present`.
    pub fn category_downloaded(&self, present: &Vec<String>, category: usize) -> (downloaded: bool)
        ensures
            downloaded == category_there(self@, text::texts(present@), category),
    {
        if category >= self.catalog.categories.len() {
            return false;
        }
        let count = self.catalog.categories[category].subcategories.len();
        let ghost names = text::texts(present@);
        let mut i: usize = 0;
        while i < count
            invariant
                i <= count,
                names == text::texts(present@),
                app::has_category(self@.catalog, category),
                count == self@.catalog[category as int].subcategories.len(),
                forall|s: usize| s < i ==> #[trigger] subcategory_there(self@, names, category, s),
            decreases count - i,
        {
            if !self.subcategory_downloaded(present, category, i) {
                assert(app::has_subcategory(self@.catalog, category, i));
                return false;
            }
            i = i + 1;
        }
        count > 0
    }
}

// ---------------------------------------------------------------------------------------------
// Choosing
// ---------------------------------------------------------------------------------------------
/// The subcategories of a category.
pub open spec fn keys_in(catalog: Seq<catalog::Category>, category: usize) -> Set<(usize, usize)> {
    Set::new(|k: (usize, usize)| k.0 == category && app::has_subcategory(catalog, k.0, k.1))
}

/// Whether every subcategory of a category is chosen as a whole.
pub open spec fn every_subcategory_chosen(state: State, category: usize) -> bool {
    forall|s: usize|
        app::has_subcategory(state.catalog, category, s) ==> #[trigger] subcategory_selection(
            state,
            category,
            s,
        ) == SelectionState::Selected
}

/// The state with nothing of a category chosen.
pub open spec fn without_category(state: State, category: usize) -> State {
    State {
        selected_subcategories: state.selected_subcategories.filter(
            |k: (usize, usize)| k.0 != category,
        ),
        selected_assets: state.selected_assets.filter(
            |k: (usize, usize, usize)| k.0 != category,
        ),
        ..state
    }
}

/// The state with every subcategory of a category chosen.
pub open spec fn with_category(state: State, category: usize) -> State {
    State {
        selected_subcategories: state.selected_subcategories.union(
            keys_in(state.catalog, category),
        ),
        ..state
    }
}

/// The state with nothing of a subcategory chosen.
pub open spec fn without_subcategory(state: State, category: usize, subcategory: usize) -> State {
    State {
        selected_subcategories: state.selected_subcategories.remove((category, subcategory)),
        selected_assets: state.selected_assets.filter(
            |k: (usize, usize, usize)| !(k.0 == category && k.1 == subcategory),
        ),
        ..state
    }
}

/// The state with the category or subcategory under the cursor not chosen at all if all of it was
/// chosen, and all of it chosen otherwise. An asset is added to the assets that are chosen by
/// themselves, or taken out of them, whether or not its subcategory is chosen.
pub open spec fn toggled(state: State) -> State {
    match tree::current(state) {
        Some(node) => match node.kind {
            TreeNodeKind::Category(category) => if every_subcategory_chosen(state, category) {
                without_category(state, category)
            } else {
                with_category(state, category)
            },
            TreeNodeKind::Subcategory { category, subcategory } => {
                if subcategory_selection(state, category, subcategory)
                    == SelectionState::Selected {
                    without_subcategory(state, category, subcategory)
                } else {
                    State {
                        selected_subcategories: state.selected_subcategories.insert(
                            (category, subcategory),
                        ),
                        ..state
                    }
                }
            },
            TreeNodeKind::Asset { category, subcategory, asset } => {
                let key = (category, subcategory, asset);
                State {
                    selected_assets: if state.selected_assets.contains(key) {
                        state.selected_assets.remove(key)
                    } else {
                        state.selected_assets.insert(key)
                    },
                    ..state
                }
            },
        },
        None => state,
    }
}

impl App {
    /// Unchooses every asset of a subcategory that is chosen by itself.
    fn drop_assets(&mut self, category: usize, subcategory: usize)
        requires
            app::sound(old(self)@),
            app::has_subcategory(old(self)@.catalog, category, subcategory),
        ensures
            final(self)@ == (State {
                selected_assets: old(self)@.selected_assets.filter(
                    |k: (usize, usize, usize)| !(k.0 == category && k.1 == subcategory),
                ),
                ..old(self)@
            }),
    {
        let count = self.catalog.categories[category].subcategories[subcategory].assets.len();
        let ghost start = self@;
        let mut i: usize = 0;
        while i < count
            invariant
                i <= count,
                self@ == (State {
                    selected_assets: start.selected_assets.filter(
                        |k: (usize, usize, usize)|
                            !(k.0 == category && k.1 == subcategory && k.2 < i),
                    ),
                    ..start
                }),
            decreases count - i,
        {
            self.selected_assets.remove(&(category, subcategory, i));
            i = i + 1;
            assert(self@ =~= State {
                selected_assets: start.selected_assets.filter(
                    |k: (usize, usize, usize)| !(k.0 == category && k.1 == subcategory && k.2 < i),
                ),
                ..start
            });
        }
        assert(self@ =~= State {
            selected_assets: start.selected_assets.filter(
                |k: (usize, usize, usize)| !(k.0 == category && k.1 == subcategory),
            ),
            ..start
        });
    }

    /// Tells whether every subcategory of a category is chosen as a whole.
    fn has_every_subcategory(&self, category: usize) -> (every: bool)
        requires
            app::has_category(self@.catalog, category),
        ensures
            every == every_subcategory_chosen(self@, category),
    {
        let count = self.catalog.categories[category].subcategories.len();
        let mut i: usize = 0;
        while i < count
            invariant
                i <= count,
                app::has_category(self@.catalog, category),
                count == self@.catalog[category as int].subcategories.len(),
                forall|s: usize|
                    s < i ==> #[trigger] subcategory_selection(self@, category, s)
                        == SelectionState::Selected,
            decreases count - i,
        {
            if self.selection_state_for_subcategory(category, i) != SelectionState::Selected {
                assert(app::has_subcategory(self@.catalog, category, i));
                return false;
            }
            i = i + 1;
        }
        true
    }

    /// Unchooses everything of a category.
    fn drop_category(&mut self, category: usize)
        requires
            app::sound(old(self)@),
            app::has_category(old(self)@.catalog, category),
        ensures
            final(self)@ == without_category(old(self)@, category),
    {
        let keys = self.subcategory_indices_for_category(category);
        let ghost start = self@;
        let mut i: usize = 0;
        while i < keys.len()
            invariant
                i <= keys.len(),
                app::sound(start),
                app::has_category(start.catalog, category),
                keys@ == Seq::new(
                    start.catalog[category as int].subcategories.len(),
                    |s: int| (category, s as usize),
                ),
                self@ == (State {
                    selected_subcategories: start.selected_subcategories.filter(
                        |k: (usize, usize)| !(k.0 == category && k.1 < i),
                    ),
                    selected_assets: start.selected_assets.filter(
                        |k: (usize, usize, usize)| !(k.0 == category && k.1 < i),
                    ),
                    ..start
                }),
            decreases keys.len() - i,
        {
            let key = keys[i];
            assert(key == (category, i));
            proof {
                tree::lemma_same_tree(start, self@);
            }
            self.drop_assets(key.0, key.1);
            self.selected_subcategories.remove(&key);
            i = i + 1;
            assert(self@ =~= State {
                selected_subcategories: start.selected_subcategories.filter(
                    |k: (usize, usize)| !(k.0 == category && k.1 < i),
                ),
                selected_assets: start.selected_assets.filter(
                    |k: (usize, usize, usize)| !(k.0 == category && k.1 < i),
                ),
                ..start
            });
        }
        assert(self@ =~= without_category(start, category));
    }

    /// Chooses every subcategory of a category.
    fn take_category(&mut self, category: usize)
        requires
            app::has_category(old(self)@.catalog, category),
        ensures
            final(self)@ == with_category(old(self)@, category),
    {
        let keys = self.subcategory_indices_for_category(category);
        let ghost start = self@;
        let mut i: usize = 0;
        while i < keys.len()
            invariant
                i <= keys.len(),
                app::has_category(start.catalog, category),
                keys@ == Seq::new(
                    start.catalog[category as int].subcategories.len(),
                    |s: int| (category, s as usize),
                ),
                self@ == (State {
                    selected_subcategories: start.selected_subcategories.union(
                        keys_in(start.catalog, category).filter(|k: (usize, usize)| k.1 < i),
                    ),
                    ..start
                }),
            decreases keys.len() - i,
        {
            self.selected_subcategories.insert(keys[i]);
            i = i + 1;
            assert(self@ =~= State {
                selected_subcategories: start.selected_subcategories.union(
                    keys_in(start.catalog, category).filter(|k: (usize, usize)| k.1 < i),
                ),
                ..start
            });
        }
        assert(self@ =~= with_category(start, category));
    }

    /// Unchooses the category or subcategory under the cursor if all of it is chosen, and chooses
    /// all of it otherwise. An asset is chosen or unchosen by itself.
    pub fn toggle_current_selection(&mut self)
        requires
            app::sound(old(self)@),
        ensures
            final(self)@ == toggled(old(self)@),
            app::sound(final(self)@),
    {
        if let Some(node) = self.current_node() {
            proof {
                tree::lemma_place_of_line(self@, self@.selected_index as int);
            }
            match node.kind {
                TreeNodeKind::Category(category) => {
                    if self.has_every_subcategory(category) {
                        self.drop_category(category);
                    } else {
                        self.take_category(category);
                    }
                },
                TreeNodeKind::Subcategory { category, subcategory } => {
                    if self.selection_state_for_subcategory(category, subcategory)
                        == SelectionState::Selected {
                        self.drop_assets(category, subcategory);
                        self.selected_subcategories.remove(&(category, subcategory));
                    } else {
                        self.selected_subcategories.insert((category, subcategory));
                    }
                },
                TreeNodeKind::Asset { category, subcategory, asset } => {
                    if !self.selected_assets.remove(&(category, subcategory, asset)) {
                        self.selected_assets.insert((category, subcategory, asset));
                    }
                },
            }
        }
        assert(self@ =~= toggled(old(self)@));
        proof {
            tree::lemma_same_tree(old(self)@, self@);
        }
    }
}

// ---------------------------------------------------------------------------------------------
// Choosing everything or nothing
// ---------------------------------------------------------------------------------------------
/// Every subcategory of a catalog.
pub open spec fn all_keys(catalog: Seq<catalog::Category>) -> Set<(usize, usize)> {
    Set::new(|k: (usize, usize)| app::has_subcategory(catalog, k.0, k.1))
}

/// The state with every subcategory chosen.
pub open spec fn all_taken(state: State) -> State {
    app::logged(
        State { selected_subcategories: all_keys(state.catalog), ..state },
        "Selected all subcategories."@,
    )
}

/// The state with nothing chosen.
pub open spec fn cleared(state: State) -> State {
    app::logged(
        State { selected_subcategories: Set::empty(), selected_assets: Set::empty(), ..state },
        "Cleared selection."@,
    )
}

impl App {
    /// Chooses every subcategory.
    pub fn select_all(&mut self)
        requires
            app::sound(old(self)@),
        ensures
            final(self)@ == all_taken(old(self)@),
            app::sound(final(self)@),
    {
        let ghost start = self@;
        self.selected_subcategories.clear();
        let mut i: usize = 0;
        while i < self.catalog.categories.len()
            invariant
                i <= start.catalog.len(),
                self@ == (State {
                    selected_subcategories: all_keys(start.catalog).filter(
                        |k: (usize, usize)| k.0 < i,
                    ),
                    ..start
                }),
            decreases start.catalog.len() - i,
        {
            self.take_category(i);
            i = i + 1;
            assert(self@ =~= State {
                selected_subcategories: all_keys(start.catalog).filter(
                    |k: (usize, usize)| k.0 < i,
                ),
                ..start
            });
        }
        assert(self@ =~= State { selected_subcategories: all_keys(start.catalog), ..start });
        proof {
            tree::lemma_same_tree(start, self@);
        }
        self.log("Selected all subcategories.".to_owned());
    }

    /// Unchooses everything.
    pub fn clear_selection(&mut self)
        requires
            app::sound(old(self)@),
        ensures
            final(self)@ == cleared(old(self)@),
            app::sound(final(self)@),
    {
        self.selected_subcategories.clear();
        self.selected_assets.clear();
        proof {
            tree::lemma_same_tree(old(self)@, self@);
        }
        self.log("Cleared selection.".to_owned());
    }
}

// ---------------------------------------------------------------------------------------------
// The assets that are chosen
// ---------------------------------------------------------------------------------------------
/// Those of the first `count` assets of a subcategory that are chosen.
pub open spec fn chosen_of(
    state: State,
    category: usize,
    subcategory: usize,
    count: nat,
) -> Seq<catalog::Asset>
    decreases count,
{
    if count == 0 {
        Seq::empty()
    } else {
        let before = chosen_of(state, category, subcategory, (count - 1) as nat);
        if chosen(state, category, subcategory, (count - 1) as usize) {
            before.push(
                state.catalog[category as int].subcategories[subcategory as int].assets[count - 1],
            )
        } else {
            before
        }
    }
}

/// The assets chosen in the first `count` subcategories of a category.
pub open spec fn chosen_in(state: State, category: usize, count: nat) -> Seq<catalog::Asset>
    decreases count,
{
    if count == 0 {
        Seq::empty()
    } else {
        let last = (count - 1) as usize;
        chosen_in(state, category, (count - 1) as nat) + chosen_of(
            state,
            category,
            last,
            state.catalog[category as int].subcategories[last as int].assets.len(),
        )
    }
}

/// The assets chosen in the first `count` categories.
pub open spec fn chosen_among(state: State, count: nat) -> Seq<catalog::Asset>
    decreases count,
{
    if count == 0 {
        Seq::empty()
    } else {
        let last = (count - 1) as usize;
        chosen_among(state, (count - 1) as nat) + chosen_in(
            state,
            last,
            state.catalog[last as int].subcategories.len(),
        )
    }
}

/// Whether an asset of a list has a file of this name.
pub open spec fn has_file(list: Seq<catalog::Asset>, name: Seq<char>) -> bool {
    exists|i: int| 0 <= i < list.len() && (#[trigger] list[i]).file_name == name
}

/// The assets of a list, each file once: the first asset with it stays.
pub open spec fn distinct(list: Seq<catalog::Asset>) -> Seq<catalog::Asset>
    decreases list.len(),
{
    if list.len() == 0 {
        Seq::empty()
    } else {
        let before = distinct(list.drop_last());
        if has_file(before, list.last().file_name) {
            before
        } else {
            before.push(list.last())
        }
    }
}

/// The assets that are chosen, in the order of the catalog, each file once.
pub open spec fn selection(state: State) -> Seq<catalog::Asset> {
    distinct(chosen_among(state, state.catalog.len()))
}

/// Whether a set holds the names of the files of a list.
spec fn names_files(names: Set<Seq<char>>, list: Seq<catalog::Asset>) -> bool {
    forall|name: Seq<char>| #[trigger] names.contains(name) == has_file(list, name)
}

impl App {
    /// Adds the chosen assets of a subcategory whose files are not in the list yet.
    fn gather(
        &self,
        category: usize,
        subcategory: usize,
        list: &mut Vec<WallpaperAsset>,
        seen: &mut StringHashSet,
        Ghost(before): Ghost<Seq<catalog::Asset>>,
    )
        requires
            app::has_subcategory(self@.catalog, category, subcategory),
            catalog::assets(old(list)@) == distinct(before),
            names_files(old(seen)@, distinct(before)),
        ensures
            ({
                let after = before + chosen_of(
                    self@,
                    category,
                    subcategory,
                    self@.catalog[category as int].subcategories[subcategory as int].assets.len(),
                );
                &&& catalog::assets(final(list)@) == distinct(after)
                &&& names_files(final(seen)@, distinct(after))
            }),
    {
        let assets = &self.catalog.categories[category].subcategories[subcategory].assets;
        let ghost contents = catalog::assets(assets@);
        assert(contents == self@.catalog[category as int].subcategories[subcategory as int].assets);
        let mut i: usize = 0;
        assert(before + chosen_of(self@, category, subcategory, 0) =~= before);
        while i < assets.len()
            invariant
                i <= assets.len(),
                contents == catalog::assets(assets@),
                contents
                    == self@.catalog[category as int].subcategories[subcategory as int].assets,
                catalog::assets(list@) == distinct(
                    before + chosen_of(self@, category, subcategory, i as nat),
                ),
                names_files(
                    seen@,
                    distinct(before + chosen_of(self@, category, subcategory, i as nat)),
                ),
            decreases assets.len() - i,
        {
            let ghost sofar = before + chosen_of(self@, category, subcategory, i as nat);
            if self.asset_is_selected(category, subcategory, i) {
                let ghost next = sofar.push(contents[i as int]);
                assert(before + chosen_of(self@, category, subcategory, (i + 1) as nat) =~= next);
                assert(next.drop_last() =~= sofar);
                let ghost old_list = catalog::assets(list@);
                let ghost old_seen = seen@;
                if seen.insert(assets[i].file_name.clone()) {
                    list.push(assets[i].clone());
                    assert(catalog::assets(list@) =~= old_list.push(contents[i as int]));
                    assert(distinct(next) == old_list.push(contents[i as int]));
                    assert forall|name: Seq<char>| #[trigger] seen@.contains(name) == has_file(
                        distinct(next),
                        name,
                    ) by {
                        let more = distinct(next);
                        if has_file(old_list, name) {
                            let k = choose|k: int|
                                0 <= k < old_list.len() && (#[trigger] old_list[k]).file_name
                                    == name;
                            assert(more[k].file_name == name);
                        }
                        assert(more[old_list.len() as int] == contents[i as int]);
                        if has_file(more, name) {
                            let k = choose|k: int|
                                0 <= k < more.len() && (#[trigger] more[k]).file_name == name;
                            if k < old_list.len() {
                                assert(old_list[k].file_name == name);
                            }
                        }
                        assert(seen@.contains(name) == (old_seen.contains(name) || name
                            == contents[i as int].file_name));
                    }
                } else {
                    assert(distinct(next) == old_list);
                    assert(seen@ =~= old_seen);
                }
            }
            i = i + 1;
        }
    }

    /// Lists the assets that are chosen.
    pub fn selected_assets(&self) -> (list: Vec<WallpaperAsset>)
        ensures
            catalog::assets(list@) == selection(self@),
    {
        let mut list: Vec<WallpaperAsset> = Vec::new();
        let mut seen = StringHashSet::new();
        let mut c: usize = 0;
        assert(catalog::assets(list@) =~= Seq::<catalog::Asset>::empty());
        while c < self.catalog.categories.len()
            invariant
                c <= self@.catalog.len(),
                self@.catalog.len() == self.catalog.categories.len(),
                catalog::assets(list@) == distinct(chosen_among(self@, c as nat)),
                names_files(seen@, distinct(chosen_among(self@, c as nat))),
            decreases self.catalog.categories.len() - c,
        {
            let ghost earlier = chosen_among(self@, c as nat);
            let mut s: usize = 0;
            assert(earlier + chosen_in(self@, c, 0) =~= earlier);
            while s < self.catalog.categories[c].subcategories.len()
                invariant
                    c < self@.catalog.len(),
                    self@.catalog.len() == self.catalog.categories.len(),
                    s <= self@.catalog[c as int].subcategories.len(),
                    catalog::assets(list@) == distinct(earlier + chosen_in(self@, c, s as nat)),
                    names_files(seen@, distinct(earlier + chosen_in(self@, c, s as nat))),
                decreases self@.catalog[c as int].subcategories.len() - s,
            {
                let ghost before = earlier + chosen_in(self@, c, s as nat);
                self.gather(c, s, &mut list, &mut seen, Ghost(before));
                s = s + 1;
                proof {
                    let last = (s - 1) as usize;
                    let count = self@.catalog[c as int].subcategories[last as int].assets.len();
                    assert(before + chosen_of(self@, c, last, count) =~= earlier + chosen_in(
                        self@,
                        c,
                        s as nat,
                    ));
                }
            }
            c = c + 1;
        }
        list
    }
}

// ---------------------------------------------------------------------------------------------
// The assets under the cursor
// ---------------------------------------------------------------------------------------------
/// The assets of the first `count` subcategories of a list.
pub open spec fn assets_of(list: Seq<catalog::Subcategory>, count: nat) -> Seq<catalog::Asset>
    decreases count,
{
    if count == 0 {
        Seq::empty()
    } else {
        assets_of(list, (count - 1) as nat) + list[count - 1].assets
    }
}

/// The assets of what is under the cursor.
pub open spec fn under_cursor(state: State) -> Seq<catalog::Asset> {
    match tree::current(state) {
        Some(node) => match node.kind {
            TreeNodeKind::Category(category) => {
                let list = state.catalog[category as int].subcategories;
                assets_of(list, list.len())
            },
            TreeNodeKind::Subcategory { category, subcategory } => {
                state.catalog[category as int].subcategories[subcategory as int].assets
            },
            TreeNodeKind::Asset { category, subcategory, asset } => {
                seq![
                    state.catalog[category as int].subcategories[subcategory as int].assets[asset as int],
                ]
            },
        },
        None => Seq::empty(),
    }
}

impl App {
    /// Adds the assets of a subcategory to a list.
    fn append_assets(&self, category: usize, subcategory: usize, list: &mut Vec<WallpaperAsset>)
        requires
            app::has_subcategory(self@.catalog, category, subcategory),
        ensures
            catalog::assets(final(list)@) == catalog::assets(old(list)@)
                + self@.catalog[category as int].subcategories[subcategory as int].assets,
    {
        let mut more = self.catalog.categories[category].subcategories[subcategory].assets.clone();
        let ghost before = list@;
        let ghost added = more@;
        list.append(&mut more);
        let ghost assets = self.catalog.categories[category as int].subcategories[subcategory as int].assets@;
        assert(added =~= assets);
        assert(catalog::assets(list@) =~= catalog::assets(before) + catalog::assets(assets));
    }

    /// Lists the assets of what is under the cursor.
    pub fn current_assets(&self) -> (list: Vec<WallpaperAsset>)
        requires
            app::sound(self@),
        ensures
            catalog::assets(list@) == under_cursor(self@),
    {
        let mut list: Vec<WallpaperAsset> = Vec::new();
        assert(catalog::assets(list@) =~= Seq::<catalog::Asset>::empty());
        if let Some(node) = self.current_node() {
            proof {
                tree::lemma_place_of_line(self@, self@.selected_index as int);
            }
            match node.kind {
                TreeNodeKind::Category(category) => {
                    let ghost subcategories = self@.catalog[category as int].subcategories;
                    let mut i: usize = 0;
                    while i < self.catalog.categories[category].subcategories.len()
                        invariant
                            app::has_category(self@.catalog, category),
                            subcategories == self@.catalog[category as int].subcategories,
                            i <= subcategories.len(),
                            catalog::assets(list@) == assets_of(subcategories, i as nat),
                        decreases subcategories.len() - i,
                    {
                        self.append_assets(category, i, &mut list);
                        i = i + 1;
                    }
                },
                TreeNodeKind::Subcategory { category, subcategory } => {
                    self.append_assets(category, subcategory, &mut list);
                    assert(catalog::assets(list@) =~= under_cursor(self@));
                },
                TreeNodeKind::Asset { category, subcategory, asset } => {
                    let assets = &self.catalog.categories[category].subcategories[subcategory].assets;
                    list.push(assets[asset].clone());
                    assert(catalog::assets(list@) =~= under_cursor(self@));
                },
            }
        }
        list
    }
}

// ---------------------------------------------------------------------------------------------
// Laws
// ---------------------------------------------------------------------------------------------
/// Where an asset of a list comes from.
proof fn lemma_chosen_of(state: State, category: usize, subcategory: usize, count: nat, i: int) -> (
found: usize)
    requires
        0 <= i < chosen_of(state, category, subcategory, count).len(),
        count <= usize::MAX,
    ensures
        found < count,
        chosen(state, category, subcategory, found),
        chosen_of(state, category, subcategory, count)[i]
            == state.catalog[category as int].subcategories[subcategory as int].assets[found as int],
    decreases count,
{
    let before = chosen_of(state, category, subcategory, (count - 1) as nat);
    if i < before.len() {
        lemma_chosen_of(state, category, subcategory, (count - 1) as nat, i)
    } else {
        (count - 1) as usize
    }
}

/// A chosen asset comes up.
proof fn lemma_chosen_comes_up(
    state: State,
    category: usize,
    subcategory: usize,
    count: nat,
    asset: usize,
) -> (at: int)
    requires
        asset < count <= usize::MAX,
        chosen(state, category, subcategory, asset),
    ensures
        0 <= at < chosen_of(state, category, subcategory, count).len(),
        chosen_of(state, category, subcategory, count)[at]
            == state.catalog[category as int].subcategories[subcategory as int].assets[asset as int],
    decreases count,
{
    if asset == count - 1 {
        chosen_of(state, category, subcategory, count).len() - 1
    } else {
        lemma_chosen_comes_up(state, category, subcategory, (count - 1) as nat, asset)
    }
}

/// Whether an asset with this content is chosen.
pub open spec fn is_chosen(state: State, asset: catalog::Asset) -> bool {
    exists|c: usize, s: usize, a: usize|
        app::has_asset(state.catalog, c, s, a) && #[trigger] chosen(state, c, s, a)
            && state.catalog[c as int].subcategories[s as int].assets[a as int] == asset
}

proof fn lemma_chosen_in_is_chosen(state: State, category: usize, count: nat, i: int)
    requires
        catalog::countable(state.catalog),
        app::has_category(state.catalog, category),
        count <= state.catalog[category as int].subcategories.len(),
        0 <= i < chosen_in(state, category, count).len(),
    ensures
        is_chosen(state, chosen_in(state, category, count)[i]),
    decreases count,
{
    let before = chosen_in(state, category, (count - 1) as nat);
    if i < before.len() {
        lemma_chosen_in_is_chosen(state, category, (count - 1) as nat, i);
    } else {
        let last = (count - 1) as usize;
        let list = state.catalog[category as int].subcategories;
        catalog::lemma_assets_within_total(list, last as int);
        let a = lemma_chosen_of(
            state,
            category,
            last,
            list[last as int].assets.len(),
            i - before.len(),
        );
        assert(app::has_asset(state.catalog, category, last, a));
    }
}

proof fn lemma_chosen_among_is_chosen(state: State, count: nat, i: int)
    requires
        catalog::countable(state.catalog),
        count <= state.catalog.len(),
        0 <= i < chosen_among(state, count).len(),
    ensures
        is_chosen(state, chosen_among(state, count)[i]),
    decreases count,
{
    let before = chosen_among(state, (count - 1) as nat);
    if i < before.len() {
        lemma_chosen_among_is_chosen(state, (count - 1) as nat, i);
    } else {
        let last = (count - 1) as usize;
        lemma_chosen_in_is_chosen(
            state,
            last,
            state.catalog[last as int].subcategories.len(),
            i - before.len(),
        );
    }
}

proof fn lemma_chosen_in_has(
    state: State,
    category: usize,
    count: nat,
    subcategory: usize,
    asset: usize,
) -> (at: int)
    requires
        catalog::countable(state.catalog),
        app::has_asset(state.catalog, category, subcategory, asset),
        subcategory < count <= state.catalog[category as int].subcategories.len(),
        chosen(state, category, subcategory, asset),
    ensures
        0 <= at < chosen_in(state, category, count).len(),
        chosen_in(state, category, count)[at]
            == state.catalog[category as int].subcategories[subcategory as int].assets[asset as int],
    decreases count,
{
    if subcategory == count - 1 {
        let list = state.catalog[category as int].subcategories;
        catalog::lemma_assets_within_total(list, subcategory as int);
        chosen_in(state, category, (count - 1) as nat).len() + lemma_chosen_comes_up(
            state,
            category,
            subcategory,
            list[subcategory as int].assets.len(),
            asset,
        )
    } else {
        lemma_chosen_in_has(state, category, (count - 1) as nat, subcategory, asset)
    }
}

proof fn lemma_chosen_among_has(
    state: State,
    count: nat,
    category: usize,
    subcategory: usize,
    asset: usize,
) -> (at: int)
    requires
        catalog::countable(state.catalog),
        app::has_asset(state.catalog, category, subcategory, asset),
        category < count <= state.catalog.len(),
        chosen(state, category, subcategory, asset),
    ensures
        0 <= at < chosen_among(state, count).len(),
        chosen_among(state, count)[at]
            == state.catalog[category as int].subcategories[subcategory as int].assets[asset as int],
    decreases count,
{
    if category == count - 1 {
        chosen_among(state, (count - 1) as nat).len() + lemma_chosen_in_has(
            state,
            category,
            state.catalog[category as int].subcategories.len(),
            subcategory,
            asset,
        )
    } else {
        lemma_chosen_among_has(state, (count - 1) as nat, category, subcategory, asset)
    }
}

/// What is left when each file is kept once: no file twice, no file lost, nothing new.
proof fn lemma_distinct(list: Seq<catalog::Asset>)
    ensures
        forall|i: int, j: int|
            0 <= i < j < distinct(list).len() ==> (#[trigger] distinct(list)[i]).file_name != (
            #[trigger] distinct(list)[j]).file_name,
        forall|i: int|
            0 <= i < list.len() ==> has_file(distinct(list), (#[trigger] list[i]).file_name),
        forall|i: int| 0 <= i < distinct(list).len() ==> list.contains(#[trigger] distinct(list)[i]),
    decreases list.len(),
{
    if list.len() > 0 {
        let less = list.drop_last();
        lemma_distinct(less);
        let before = distinct(less);
        let after = distinct(list);
        assert forall|i: int| 0 <= i < list.len() implies has_file(
            after,
            (#[trigger] list[i]).file_name,
        ) by {
            if i < less.len() {
                assert(less[i] == list[i]);
                let k = choose|k: int|
                    0 <= k < before.len() && (#[trigger] before[k]).file_name == list[i].file_name;
                assert(after[k].file_name == list[i].file_name);
            } else if has_file(before, list.last().file_name) {
                assert(after == before);
            } else {
                assert(after[before.len() as int].file_name == list[i].file_name);
            }
        }
        assert forall|i: int, j: int| 0 <= i < j < after.len() implies (#[trigger] after[i]).file_name
            != (#[trigger] after[j]).file_name by {
            if j == before.len() {
                assert(before[i] == after[i]);
            } else {
                assert(before[i] == after[i] && before[j] == after[j]);
            }
        }
        assert forall|i: int| 0 <= i < after.len() implies list.contains(#[trigger] after[i]) by {
            if i < before.len() {
                assert(before[i] == after[i]);
                let k = choose|k: int| 0 <= k < less.len() && less[k] == before[i];
                assert(list[k] == after[i]);
            } else {
                assert(list[list.len() - 1] == after[i]);
            }
        }
    }
}

/// What is downloaded is what is chosen: every asset to download is chosen, the file of every
/// chosen asset is downloaded, and no file is downloaded twice.
pub proof fn law_selection_is_what_is_chosen(state: State)
    requires
        catalog::countable(state.catalog),
    ensures
        forall|i: int|
            0 <= i < selection(state).len() ==> is_chosen(state, #[trigger] selection(state)[i]),
        forall|c: usize, s: usize, a: usize|
            app::has_asset(state.catalog, c, s, a) && #[trigger] chosen(state, c, s, a) ==> has_file(
                selection(state),
                state.catalog[c as int].subcategories[s as int].assets[a as int].file_name,
            ),
        forall|i: int, j: int|
            0 <= i < j < selection(state).len() ==> (#[trigger] selection(state)[i]).file_name != (
            #[trigger] selection(state)[j]).file_name,
{
    let all = chosen_among(state, state.catalog.len());
    lemma_distinct(all);
    assert forall|i: int| 0 <= i < selection(state).len() implies is_chosen(
        state,
        #[trigger] selection(state)[i],
    ) by {
        let k = choose|k: int| 0 <= k < all.len() && all[k] == selection(state)[i];
        lemma_chosen_among_is_chosen(state, state.catalog.len(), k);
    }
    assert forall|c: usize, s: usize, a: usize|
        app::has_asset(state.catalog, c, s, a) && #[trigger] chosen(state, c, s, a) implies has_file(
        selection(state),
        state.catalog[c as int].subcategories[s as int].assets[a as int].file_name,
    ) by {
        let k = lemma_chosen_among_has(state, state.catalog.len(), c, s, a);
        assert(has_file(distinct(all), all[k].file_name));
    }
}

/// Nothing is chosen at the beginning.
pub proof fn law_nothing_is_chosen_at_first(
    catalog: Seq<catalog::Category>,
    output_dir: Seq<char>,
    download_threads: usize,
)
    requires
        catalog::countable(catalog),
    ensures
        selection(app::fresh(catalog, output_dir, download_threads)).len() == 0,
{
    let state = app::fresh(catalog, output_dir, download_threads);
    law_selection_is_what_is_chosen(state);
    if selection(state).len() > 0 {
        assert(is_chosen(state, selection(state)[0]));
    }
}

/// After clearing, nothing is chosen.
pub proof fn law_clearing_leaves_nothing(state: State)
    requires
        catalog::countable(state.catalog),
    ensures
        selection(cleared(state)).len() == 0,
        forall|c: usize| category_selection(cleared(state), c) == SelectionState::Unselected,
{
    let after = cleared(state);
    law_selection_is_what_is_chosen(after);
    if selection(after).len() > 0 {
        assert(is_chosen(after, selection(after)[0]));
    }
    assert forall|c: usize| category_selection(after, c) == SelectionState::Unselected by {
        if exists|s: usize| wholly_chosen(after, c, s) {
            let s = choose|s: usize| #[trigger] wholly_chosen(after, c, s);
            assert(some_chosen(after, c, s));
        }
    }
}

/// After choosing everything, every asset of the catalog is chosen.
pub proof fn law_selecting_all_takes_everything(state: State)
    ensures
        forall|c: usize, s: usize, a: usize|
            app::has_asset(state.catalog, c, s, a) ==> #[trigger] chosen(all_taken(state), c, s, a),
{
    assert forall|c: usize, s: usize, a: usize|
        app::has_asset(state.catalog, c, s, a) implies #[trigger] chosen(
        all_taken(state),
        c,
        s,
        a,
    ) by {
        assert(all_keys(state.catalog).contains((c, s)));
    }
}

/// Toggling a category that has subcategories, or a subcategory, leaves nothing of it chosen if all
/// of it was, and all of it otherwise.
pub proof fn law_toggling_takes_all_or_nothing(state: State)
    requires
        app::sound(state),
    ensures
        match tree::current(state) {
            Some(node) => match node.kind {
                TreeNodeKind::Category(category) => app::has_subcategory(state.catalog, category, 0)
                    ==> if category_selection(state, category) == SelectionState::Selected {
                    &&& category_selection(toggled(state), category) == SelectionState::Unselected
                    &&& forall|s: usize, a: usize| !#[trigger]
                        chosen(toggled(state), category, s, a)
                } else {
                    category_selection(toggled(state), category) == SelectionState::Selected
                },
                TreeNodeKind::Subcategory { category, subcategory } => if subcategory_selection(
                    state,
                    category,
                    subcategory,
                ) == SelectionState::Selected {
                    &&& subcategory_selection(toggled(state), category, subcategory)
                        == SelectionState::Unselected
                    &&& forall|a: usize| !#[trigger]
                        chosen(toggled(state), category, subcategory, a)
                } else {
                    subcategory_selection(toggled(state), category, subcategory)
                        == SelectionState::Selected
                },
                TreeNodeKind::Asset { .. } => true,
            },
            None => true,
        },
{
    let after = toggled(state);
    if tree::current(state) is Some {
        tree::lemma_place_of_line(state, state.selected_index as int);
        let kind = tree::current(state)->0.kind;
        match kind {
            TreeNodeKind::Category(category) => {
                if app::has_subcategory(state.catalog, category, 0) {
                    assert(every_subcategory_chosen(state, category) == (category_selection(
                        state,
                        category,
                    ) == SelectionState::Selected)) by {
                        if every_subcategory_chosen(state, category) {
                            assert forall|s: usize|
                                app::has_subcategory(
                                    state.catalog,
                                    category,
                                    s,
                                ) implies #[trigger] wholly_chosen(state, category, s) by {
                                assert(subcategory_selection(state, category, s)
                                    == SelectionState::Selected);
                            }
                            assert(wholly_chosen(state, category, 0));
                        } else {
                            let s = choose|s: usize|
                                app::has_subcategory(state.catalog, category, s)
                                    && #[trigger] subcategory_selection(state, category, s)
                                    != SelectionState::Selected;
                            assert(!wholly_chosen(state, category, s));
                        }
                    }
                    if every_subcategory_chosen(state, category) {
                        assert forall|s: usize| !#[trigger] wholly_chosen(after, category, s) by {
                            assert(!some_chosen(after, category, s));
                        }
                    } else {
                        assert forall|s: usize|
                            app::has_subcategory(
                                state.catalog,
                                category,
                                s,
                            ) implies #[trigger] wholly_chosen(after, category, s) by {
                            assert(keys_in(state.catalog, category).contains((category, s)));
                        }
                        assert(wholly_chosen(after, category, 0));
                    }
                }
            },
            TreeNodeKind::Subcategory { category, subcategory } => {
                if subcategory_selection(state, category, subcategory)
                    == SelectionState::Selected {
                    assert(!some_chosen(after, category, subcategory));
                }
            },
            TreeNodeKind::Asset { .. } => {},
        }
    }
}

/// Whether nothing in the category or subcategory under the cursor is chosen.
pub open spec fn untouched(state: State) -> bool {
    match tree::current(state) {
        Some(node) => match node.kind {
            TreeNodeKind::Category(category) => {
                &&& forall|k: (usize, usize)| #[trigger]
                    state.selected_subcategories.contains(k) ==> k.0 != category
                &&& forall|k: (usize, usize, usize)| #[trigger]
                    state.selected_assets.contains(k) ==> k.0 != category
            },
            TreeNodeKind::Subcategory { category, subcategory } => {
                &&& !state.selected_subcategories.contains((category, subcategory))
                &&& forall|k: (usize, usize, usize)| #[trigger]
                    state.selected_assets.contains(k) ==> !(k.0 == category && k.1 == subcategory)
            },
            TreeNodeKind::Asset { .. } => true,
        },
        None => true,
    }
}

/// Toggling twice changes nothing: always on an asset, and on a category or subcategory in which
/// nothing was chosen.
pub proof fn law_toggling_twice(state: State)
    requires
        app::sound(state),
        untouched(state),
    ensures
        toggled(toggled(state)) == state,
{
    let once = toggled(state);
    let twice = toggled(once);
    tree::lemma_same_tree(state, once);
    if tree::current(state) is Some {
        tree::lemma_place_of_line(state, state.selected_index as int);
        let kind = tree::current(state)->0.kind;
        if let TreeNodeKind::Category(category) = kind {
            if !every_subcategory_chosen(state, category) {
                assert forall|s: usize|
                    app::has_subcategory(
                        once.catalog,
                        category,
                        s,
                    ) implies #[trigger] subcategory_selection(once, category, s)
                    == SelectionState::Selected by {
                    assert(keys_in(state.catalog, category).contains((category, s)));
                }
                assert(every_subcategory_chosen(once, category));
            } else {
                assert(once =~= state);
            }
        }
        assert(twice.selected_subcategories =~= state.selected_subcategories);
        assert(twice.selected_assets =~= state.selected_assets);
    }
}

} // verus!
