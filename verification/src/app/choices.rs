//! What it means that something is chosen, or there, or under the cursor.

use vstd::prelude::*;

use crate::app;
use crate::app::selection;
use crate::app::tree;
use crate::app::{SelectionState, State, TreeNodeKind};
use crate::catalog;

verus! {

// ---------------------------------------------------------------------------------------------
// How much is chosen
// ---------------------------------------------------------------------------------------------
/// An asset is chosen where it is chosen by itself or its subcategory is; it is never chosen in
/// part.
pub proof fn law_assets_are_chosen_or_not(state: State, c: usize, s: usize, a: usize)
    ensures
        selection::chosen(state, c, s, a) == (state.selected_assets.contains((c, s, a))
            || state.selected_subcategories.contains((c, s))),
        selection::asset_selection(state, c, s, a) == if state.selected_assets.contains((c, s, a))
            || state.selected_subcategories.contains((c, s)) {
            SelectionState::Selected
        } else {
            SelectionState::Unselected
        },
{
}

/// Whether each of the assets of a subcategory is chosen by itself.
pub open spec fn each_picked(state: State, c: usize, s: usize) -> bool {
    forall|a: usize|
        app::has_asset(state.catalog, c, s, a) ==> #[trigger] state.selected_assets.contains(
            (c, s, a),
        )
}

/// Whether one of the assets of a subcategory is chosen by itself.
pub open spec fn some_picked(state: State, c: usize, s: usize) -> bool {
    exists|a: usize|
        app::has_asset(state.catalog, c, s, a) && #[trigger] state.selected_assets.contains(
            (c, s, a),
        )
}

/// A subcategory is chosen where it is chosen itself, or has assets and each is chosen by itself;
/// it is not chosen where neither it nor any of its assets is; and else it is chosen in part.
pub proof fn law_subcategories_are_chosen_with_their_assets(state: State, c: usize, s: usize)
    ensures
        ({
            let itself = state.selected_subcategories.contains((c, s));
            let mark = selection::subcategory_selection(state, c, s);
            &&& (mark == SelectionState::Selected) == (itself || (some_picked(state, c, s)
                && each_picked(state, c, s)))
            &&& (mark == SelectionState::Unselected) == (!itself && !some_picked(state, c, s))
        }),
{
    if !state.selected_subcategories.contains((c, s)) {
        if selection::some_chosen(state, c, s) {
            let a = choose|a: usize|
                app::has_asset(state.catalog, c, s, a) && #[trigger] selection::chosen(
                    state,
                    c,
                    s,
                    a,
                );
            assert(state.selected_assets.contains((c, s, a)));
        }
        if some_picked(state, c, s) {
            let a = choose|a: usize|
                app::has_asset(state.catalog, c, s, a) && #[trigger] state.selected_assets.contains(
                    (c, s, a),
                );
            assert(selection::chosen(state, c, s, a));
        }
        if selection::all_chosen(state, c, s) {
            assert forall|a: usize| app::has_asset(state.catalog, c, s, a) implies #[trigger]
                state.selected_assets.contains((c, s, a)) by {
                assert(selection::chosen(state, c, s, a));
            }
        }
        if each_picked(state, c, s) {
            assert forall|a: usize| app::has_asset(state.catalog, c, s, a) implies #[trigger]
                selection::chosen(state, c, s, a) by {
                assert(state.selected_assets.contains((c, s, a)));
            }
        }
    }
}

/// Whether a subcategory of the catalog is chosen as a whole.
pub open spec fn is_whole(state: State, c: usize, s: usize) -> bool {
    c < state.catalog.len() && s < state.catalog[c as int].subcategories.len()
        && selection::subcategory_selection(state, c, s) == SelectionState::Selected
}

/// A category is chosen where it has subcategories and each is chosen as a whole; it is not chosen
/// where none of them is; and else it is chosen in part.
pub proof fn law_categories_are_chosen_with_their_subcategories(state: State, c: usize)
    ensures
        ({
            let mark = selection::category_selection(state, c);
            let count = if c < state.catalog.len() {
                state.catalog[c as int].subcategories.len()
            } else {
                0
            };
            &&& (mark == SelectionState::Selected) == ((exists|s: usize| #[trigger]
                is_whole(state, c, s)) && (forall|s: usize| s < count ==> #[trigger] is_whole(state, c, s)))
            &&& (mark == SelectionState::Unselected) == (forall|s: usize| !#[trigger]
                is_whole(state, c, s))
        }),
{
    let count = if c < state.catalog.len() {
        state.catalog[c as int].subcategories.len()
    } else {
        0
    };
    assert forall|s: usize| #[trigger] is_whole(state, c, s) == selection::wholly_chosen(
        state,
        c,
        s,
    ) by {}
    if exists|s: usize| #[trigger] selection::wholly_chosen(state, c, s) {
        let s = choose|s: usize| #[trigger] selection::wholly_chosen(state, c, s);
        assert(is_whole(state, c, s));
    }
    if exists|s: usize| #[trigger] is_whole(state, c, s) {
        let s = choose|s: usize| #[trigger] is_whole(state, c, s);
        assert(selection::wholly_chosen(state, c, s));
    }
    if forall|s: usize| s < count ==> #[trigger] is_whole(state, c, s) {
        assert forall|s: usize| app::has_subcategory(state.catalog, c, s) implies #[trigger]
            selection::wholly_chosen(state, c, s) by {
            assert(is_whole(state, c, s));
        }
    } else {
        let s = choose|s: usize| s < count && !#[trigger] is_whole(state, c, s);
        assert(!selection::wholly_chosen(state, c, s));
    }
}

// ---------------------------------------------------------------------------------------------
// What is there
// ---------------------------------------------------------------------------------------------
/// An asset is there exactly where its file is.
pub proof fn law_assets_are_there_with_their_files(
    state: State,
    present: Seq<Seq<char>>,
    c: usize,
    s: usize,
    a: usize,
)
    requires
        c < state.catalog.len(),
        s < state.catalog[c as int].subcategories.len(),
        a < state.catalog[c as int].subcategories[s as int].assets.len(),
    ensures
        selection::there(state, present, c, s, a) == present.contains(
            state.catalog[c as int].subcategories[s as int].assets[a as int].file_name,
        ),
{
}

/// A subcategory with assets is there exactly where each of their files is.
pub proof fn law_subcategories_are_there_with_their_assets(
    state: State,
    present: Seq<Seq<char>>,
    c: usize,
    s: usize,
)
    requires
        catalog::countable(state.catalog),
        c < state.catalog.len(),
        s < state.catalog[c as int].subcategories.len(),
        state.catalog[c as int].subcategories[s as int].assets.len() > 0,
    ensures
        ({
            let assets = state.catalog[c as int].subcategories[s as int].assets;
            selection::subcategory_there(state, present, c, s) == (forall|i: int|
                0 <= i < assets.len() ==> present.contains((#[trigger] assets[i]).file_name))
        }),
{
    let subcategories = state.catalog[c as int].subcategories;
    let assets = subcategories[s as int].assets;
    catalog::lemma_assets_within_total(subcategories, s as int);
    if forall|i: int| 0 <= i < assets.len() ==> present.contains((#[trigger] assets[i]).file_name) {
        assert forall|b: usize| app::has_asset(state.catalog, c, s, b) implies #[trigger]
            selection::there(state, present, c, s, b) by {
            assert(present.contains(assets[b as int].file_name));
        }
    } else {
        let i = choose|i: int|
            0 <= i < assets.len() && !present.contains((#[trigger] assets[i]).file_name);
        assert(app::has_asset(state.catalog, c, s, i as usize));
        assert(!selection::there(state, present, c, s, i as usize));
    }
}

/// A category with subcategories is there exactly where each of them is.
pub proof fn law_categories_are_there_with_their_subcategories(
    state: State,
    present: Seq<Seq<char>>,
    c: usize,
)
    requires
        c < state.catalog.len(),
        state.catalog[c as int].subcategories.len() > 0,
    ensures
        selection::category_there(state, present, c) == (forall|t: usize|
            t < state.catalog[c as int].subcategories.len()
                ==> #[trigger] selection::subcategory_there(state, present, c, t)),
{
    let subcategories = state.catalog[c as int].subcategories;
    if forall|t: usize|
        t < subcategories.len() ==> #[trigger] selection::subcategory_there(state, present, c, t) {
        assert forall|t: usize| app::has_subcategory(state.catalog, c, t) implies #[trigger]
            selection::subcategory_there(state, present, c, t) by {}
    } else {
        let t = choose|t: usize|
            t < subcategories.len() && !#[trigger] selection::subcategory_there(
                state,
                present,
                c,
                t,
            );
        assert(app::has_subcategory(state.catalog, c, t));
    }
}

/// A subcategory without assets is not there, nor is a category without subcategories, nor anything
/// that is not in the catalog.
pub proof fn law_nothing_is_not_there(
    state: State,
    present: Seq<Seq<char>>,
    c: usize,
    s: usize,
    a: usize,
)
    ensures
        !app::has_asset(state.catalog, c, s, a) ==> !selection::there(state, present, c, s, a),
        !app::has_asset(state.catalog, c, s, 0) ==> !selection::subcategory_there(
            state,
            present,
            c,
            s,
        ),
        !app::has_subcategory(state.catalog, c, 0) ==> !selection::category_there(
            state,
            present,
            c,
        ),
        app::has_category(state.catalog, c) == (c < state.catalog.len()),
        app::has_subcategory(state.catalog, c, s) == (c < state.catalog.len() && s
            < state.catalog[c as int].subcategories.len()),
        app::has_asset(state.catalog, c, s, a) == (app::has_subcategory(state.catalog, c, s) && a
            < state.catalog[c as int].subcategories[s as int].assets.len()),
{
}

// ---------------------------------------------------------------------------------------------
// Choosing
// ---------------------------------------------------------------------------------------------
/// Toggling changes only what is chosen, and only of what is under the cursor. An asset is taken
/// into the assets that are chosen by themselves where it was not one of them, and out of them
/// where it was. Where not all of a category or subcategory was chosen, it is chosen itself, or
/// each of its subcategories is, and the assets that are chosen by themselves stay so.
pub proof fn law_toggling_leaves_the_rest_alone(state: State)
    ensures
        ({
            let after = selection::toggled(state);
            &&& after == (State {
                selected_subcategories: after.selected_subcategories,
                selected_assets: after.selected_assets,
                ..state
            })
            &&& match tree::current(state) {
                Some(node) => match node.kind {
                    TreeNodeKind::Category(c) => {
                        &&& forall|k: (usize, usize)|
                            k.0 != c ==> #[trigger] after.selected_subcategories.contains(k)
                                == state.selected_subcategories.contains(k)
                        &&& forall|k: (usize, usize, usize)|
                            k.0 != c ==> #[trigger] after.selected_assets.contains(k)
                                == state.selected_assets.contains(k)
                        &&& (exists|s: usize|
                            app::has_subcategory(state.catalog, c, s) && !#[trigger] is_whole(
                                state,
                                c,
                                s,
                            )) ==> {
                            &&& after.selected_assets == state.selected_assets
                            &&& forall|s: usize|
                                app::has_subcategory(state.catalog, c, s)
                                    ==> #[trigger] after.selected_subcategories.contains((c, s))
                        }
                    },
                    TreeNodeKind::Subcategory { category: c, subcategory: s } => {
                        &&& forall|k: (usize, usize)|
                            k != (c, s) ==> #[trigger] after.selected_subcategories.contains(k)
                                == state.selected_subcategories.contains(k)
                        &&& forall|k: (usize, usize, usize)|
                            !(k.0 == c && k.1 == s) ==> #[trigger] after.selected_assets.contains(k)
                                == state.selected_assets.contains(k)
                        &&& selection::subcategory_selection(state, c, s)
                            != SelectionState::Selected ==> {
                            &&& after.selected_assets == state.selected_assets
                            &&& after.selected_subcategories.contains((c, s))
                        }
                    },
                    TreeNodeKind::Asset { category: c, subcategory: s, asset: a } => {
                        &&& after.selected_subcategories == state.selected_subcategories
                        &&& forall|k: (usize, usize, usize)| #[trigger]
                            after.selected_assets.contains(k) == (
                            state.selected_assets.contains(k) != (k == (c, s, a)))
                    },
                },
                None => after == state,
            }
        }),
{
    let after = selection::toggled(state);
    if let Some(node) = tree::current(state) {
        if let TreeNodeKind::Category(c) = node.kind {
            assert forall|k: (usize, usize)| k.0 != c implies #[trigger]
                after.selected_subcategories.contains(k) == state.selected_subcategories.contains(
                k,
            ) by {
                assert(!selection::keys_in(state.catalog, c).contains(k));
            }
            if exists|s: usize|
                app::has_subcategory(state.catalog, c, s) && !#[trigger] is_whole(state, c, s) {
                let s = choose|s: usize|
                    app::has_subcategory(state.catalog, c, s) && !#[trigger] is_whole(state, c, s);
                assert(selection::subcategory_selection(state, c, s) != SelectionState::Selected);
                assert(!selection::every_subcategory_chosen(state, c));
                assert forall|t: usize|
                    app::has_subcategory(state.catalog, c, t) implies #[trigger]
                    after.selected_subcategories.contains((c, t)) by {
                    assert(selection::keys_in(state.catalog, c).contains((c, t)));
                }
            }
        }
    }
}

/// Choosing everything chooses each subcategory of the catalog and leaves the assets chosen by
/// themselves; choosing nothing leaves neither. Both say so in the log, and change nothing else.
pub proof fn law_everything_and_nothing(state: State)
    ensures
        ({
            let all = selection::all_taken(state);
            let none = selection::cleared(state);
            &&& forall|k: (usize, usize)| #[trigger]
                all.selected_subcategories.contains(k) == (k.0 < state.catalog.len() && k.1
                    < state.catalog[k.0 as int].subcategories.len())
            &&& all == (State {
                selected_subcategories: all.selected_subcategories,
                log_lines: app::logged_in(state.log_lines, "Selected all subcategories."@),
                ..state
            })
            &&& forall|k: (usize, usize)| !#[trigger] none.selected_subcategories.contains(k)
            &&& forall|k: (usize, usize, usize)| !#[trigger] none.selected_assets.contains(k)
            &&& none == (State {
                selected_subcategories: none.selected_subcategories,
                selected_assets: none.selected_assets,
                log_lines: app::logged_in(state.log_lines, "Cleared selection."@),
                ..state
            })
        }),
{
}

/// A browser begins with nothing expanded, chosen or under way, with the cursor on the first line.
pub proof fn law_browsers_begin_with_nothing(
    catalog: Seq<catalog::Category>,
    output_dir: Seq<char>,
    download_threads: usize,
)
    ensures
        ({
            let state = app::fresh(catalog, output_dir, download_threads);
            &&& state.catalog == catalog
            &&& state.output_dir == output_dir
            &&& state.download_threads == download_threads
            &&& forall|c: usize| !#[trigger] state.expanded_categories.contains(c)
            &&& forall|k: (usize, usize)| !#[trigger] state.expanded_subcategories.contains(k)
            &&& forall|k: (usize, usize)| !#[trigger] state.selected_subcategories.contains(k)
            &&& forall|k: (usize, usize, usize)| !#[trigger] state.selected_assets.contains(k)
            &&& state.selected_index == 0
            &&& state.mode == app::Mode::Browsing
            &&& state.status is None
            &&& state.log_lines == seq!["Ready to download."@]
        }),
{
}

// ---------------------------------------------------------------------------------------------
// What is under the cursor
// ---------------------------------------------------------------------------------------------
/// Under the cursor are an asset itself, the assets of a subcategory, or those of all subcategories
/// of a category, one after another.
pub proof fn law_groups_stand_for_their_assets(state: State)
    ensures
        match tree::current(state) {
            Some(node) => match node.kind {
                TreeNodeKind::Category(c) => selection::under_cursor(state)
                    == state.catalog[c as int].subcategories.map_values(
                    |it: catalog::Subcategory| it.assets,
                ).flatten(),
                TreeNodeKind::Subcategory { category: c, subcategory: s } => selection::under_cursor(
                    state,
                ) == state.catalog[c as int].subcategories[s as int].assets,
                TreeNodeKind::Asset { category: c, subcategory: s, asset: a } => {
                    selection::under_cursor(state) == seq![
                        state.catalog[c as int].subcategories[s as int].assets[a as int],
                    ]
                },
            },
            None => selection::under_cursor(state).len() == 0,
        },
{
    if let Some(node) = tree::current(state) {
        if let TreeNodeKind::Category(c) = node.kind {
            let list = state.catalog[c as int].subcategories;
            lemma_assets_of(list, list.len());
            assert(list.take(list.len() as int) =~= list);
        }
    }
}

proof fn lemma_assets_of(list: Seq<catalog::Subcategory>, count: nat)
    requires
        count <= list.len(),
    ensures
        selection::assets_of(list, count) == list.take(count as int).map_values(
            |it: catalog::Subcategory| it.assets,
        ).flatten(),
    decreases count,
{
    let parts = list.take(count as int).map_values(|it: catalog::Subcategory| it.assets);
    parts.lemma_flatten_and_flatten_alt_are_equivalent();
    if count > 0 {
        let fewer = list.take(count - 1).map_values(|it: catalog::Subcategory| it.assets);
        lemma_assets_of(list, (count - 1) as nat);
        fewer.lemma_flatten_and_flatten_alt_are_equivalent();
        assert(parts.drop_last() =~= fewer);
        assert(parts.last() == list[count - 1].assets);
    }
}

// ---------------------------------------------------------------------------------------------
// The order of what is chosen
// ---------------------------------------------------------------------------------------------
/// Whether one place in the catalog comes before another.
pub open spec fn earlier(left: (usize, usize, usize), right: (usize, usize, usize)) -> bool {
    left.0 < right.0 || (left.0 == right.0 && (left.1 < right.1 || (left.1 == right.1 && left.2
        < right.2)))
}

/// The asset at a place in the catalog.
pub open spec fn asset_at(state: State, place: (usize, usize, usize)) -> catalog::Asset {
    state.catalog[place.0 as int].subcategories[place.1 as int].assets[place.2 as int]
}

/// Whether the asset at a place is in the catalog and chosen.
pub open spec fn is_pick(state: State, place: (usize, usize, usize)) -> bool {
    app::has_asset(state.catalog, place.0, place.1, place.2) && (state.selected_assets.contains(place)
        || state.selected_subcategories.contains((place.0, place.1)))
}

spec fn places_of(state: State, c: usize, s: usize, count: nat) -> Seq<(usize, usize, usize)>
    decreases count,
{
    if count == 0 {
        Seq::empty()
    } else {
        let before = places_of(state, c, s, (count - 1) as nat);
        if selection::chosen(state, c, s, (count - 1) as usize) {
            before.push((c, s, (count - 1) as usize))
        } else {
            before
        }
    }
}

spec fn places_in(state: State, c: usize, count: nat) -> Seq<(usize, usize, usize)>
    decreases count,
{
    if count == 0 {
        Seq::empty()
    } else {
        let last = (count - 1) as usize;
        places_in(state, c, (count - 1) as nat) + places_of(
            state,
            c,
            last,
            state.catalog[c as int].subcategories[last as int].assets.len(),
        )
    }
}

spec fn places_among(state: State, count: nat) -> Seq<(usize, usize, usize)>
    decreases count,
{
    if count == 0 {
        Seq::empty()
    } else {
        let last = (count - 1) as usize;
        places_among(state, (count - 1) as nat) + places_in(
            state,
            last,
            state.catalog[last as int].subcategories.len(),
        )
    }
}

/// Whether places lead, one after another, to the assets of a list, each chosen, in the order of
/// the catalog.
spec fn leads_to(
    state: State,
    places: Seq<(usize, usize, usize)>,
    list: Seq<catalog::Asset>,
) -> bool {
    &&& places.len() == list.len()
    &&& forall|i: int|
        0 <= i < places.len() ==> is_pick(state, #[trigger] places[i]) && list[i] == asset_at(
            state,
            places[i],
        )
    &&& forall|i: int, j: int|
        0 <= i < j < places.len() ==> earlier(#[trigger] places[i], #[trigger] places[j])
}

proof fn lemma_places_of(state: State, c: usize, s: usize, count: nat)
    requires
        app::has_subcategory(state.catalog, c, s),
        count <= state.catalog[c as int].subcategories[s as int].assets.len() <= usize::MAX,
    ensures
        leads_to(
            state,
            places_of(state, c, s, count),
            selection::chosen_of(state, c, s, count),
        ),
        forall|i: int|
            0 <= i < places_of(state, c, s, count).len() ==> {
                let place = #[trigger] places_of(state, c, s, count)[i];
                place.0 == c && place.1 == s && place.2 < count
            },
        forall|a: usize|
            a < count && #[trigger] is_pick(state, (c, s, a)) ==> places_of(
                state,
                c,
                s,
                count,
            ).contains((c, s, a)),
    decreases count,
{
    if count > 0 {
        lemma_places_of(state, c, s, (count - 1) as nat);
        let before = places_of(state, c, s, (count - 1) as nat);
        let after = places_of(state, c, s, count);
        let last = (count - 1) as usize;
        assert(selection::chosen(state, c, s, last) == is_pick(state, (c, s, last)));
        assert forall|a: usize| a < count && #[trigger] is_pick(state, (c, s, a)) implies after.contains(
            (c, s, a),
        ) by {
            if a < last {
                assert(before.contains((c, s, a)));
                let k = choose|k: int| 0 <= k < before.len() && before[k] == (c, s, a);
                assert(after[k] == (c, s, a));
            } else {
                assert(after[before.len() as int] == (c, s, last));
            }
        }
    }
}

proof fn lemma_leads_to_both(
    state: State,
    left: Seq<(usize, usize, usize)>,
    right: Seq<(usize, usize, usize)>,
    first: Seq<catalog::Asset>,
    second: Seq<catalog::Asset>,
)
    requires
        leads_to(state, left, first),
        leads_to(state, right, second),
        forall|i: int, j: int|
            0 <= i < left.len() && 0 <= j < right.len() ==> earlier(
                #[trigger] left[i],
                #[trigger] right[j],
            ),
    ensures
        leads_to(state, left + right, first + second),
{
    let both = left + right;
    assert forall|i: int| 0 <= i < both.len() implies is_pick(state, #[trigger] both[i]) && (first
        + second)[i] == asset_at(state, both[i]) by {
        if i < left.len() {
            assert(both[i] == left[i]);
        } else {
            assert(both[i] == right[i - left.len()]);
        }
    }
    assert forall|i: int, j: int| 0 <= i < j < both.len() implies earlier(
        #[trigger] both[i],
        #[trigger] both[j],
    ) by {
        if j < left.len() {
            assert(earlier(left[i], left[j]));
        } else if i < left.len() {
            assert(earlier(left[i], right[j - left.len()]));
        } else {
            assert(earlier(right[i - left.len()], right[j - left.len()]));
        }
    }
}

proof fn lemma_places_in(state: State, c: usize, count: nat)
    requires
        catalog::countable(state.catalog),
        app::has_category(state.catalog, c),
        count <= state.catalog[c as int].subcategories.len(),
    ensures
        leads_to(state, places_in(state, c, count), selection::chosen_in(state, c, count)),
        forall|i: int|
            0 <= i < places_in(state, c, count).len() ==> {
                let place = #[trigger] places_in(state, c, count)[i];
                place.0 == c && place.1 < count
            },
        forall|s: usize, a: usize|
            s < count && #[trigger] is_pick(state, (c, s, a)) ==> places_in(
                state,
                c,
                count,
            ).contains((c, s, a)),
    decreases count,
{
    if count > 0 {
        let last = (count - 1) as usize;
        let list = state.catalog[c as int].subcategories;
        let assets = list[last as int].assets.len();
        catalog::lemma_assets_within_total(list, last as int);
        lemma_places_in(state, c, (count - 1) as nat);
        lemma_places_of(state, c, last, assets);
        let before = places_in(state, c, (count - 1) as nat);
        let more = places_of(state, c, last, assets);
        let after = before + more;
        lemma_leads_to_both(
            state,
            before,
            more,
            selection::chosen_in(state, c, (count - 1) as nat),
            selection::chosen_of(state, c, last, assets),
        );
        assert forall|i: int| 0 <= i < after.len() implies {
            let place = #[trigger] after[i];
            place.0 == c && place.1 < count
        } by {
            if i < before.len() {
                assert(after[i] == before[i]);
            } else {
                assert(after[i] == more[i - before.len()]);
            }
        }
        assert forall|s: usize, a: usize| s < count && #[trigger] is_pick(
            state,
            (c, s, a),
        ) implies after.contains((c, s, a)) by {
            if s < last {
                assert(before.contains((c, s, a)));
                let k = choose|k: int| 0 <= k < before.len() && before[k] == (c, s, a);
                assert(after[k] == (c, s, a));
            } else {
                assert(more.contains((c, s, a)));
                let k = choose|k: int| 0 <= k < more.len() && more[k] == (c, s, a);
                assert(after[before.len() + k] == (c, s, a));
            }
        }
    }
}

proof fn lemma_places_among(state: State, count: nat)
    requires
        catalog::countable(state.catalog),
        count <= state.catalog.len(),
    ensures
        leads_to(state, places_among(state, count), selection::chosen_among(state, count)),
        forall|i: int|
            0 <= i < places_among(state, count).len() ==> (#[trigger] places_among(state, count)[i]).0
                < count,
        forall|c: usize, s: usize, a: usize|
            c < count && #[trigger] is_pick(state, (c, s, a)) ==> places_among(
                state,
                count,
            ).contains((c, s, a)),
    decreases count,
{
    if count > 0 {
        let last = (count - 1) as usize;
        let inner = state.catalog[last as int].subcategories.len();
        lemma_places_among(state, (count - 1) as nat);
        lemma_places_in(state, last, inner);
        let before = places_among(state, (count - 1) as nat);
        let more = places_in(state, last, inner);
        let after = before + more;
        lemma_leads_to_both(
            state,
            before,
            more,
            selection::chosen_among(state, (count - 1) as nat),
            selection::chosen_in(state, last, inner),
        );
        assert forall|i: int| 0 <= i < after.len() implies (#[trigger] after[i]).0 < count by {
            if i < before.len() {
                assert(after[i] == before[i]);
            } else {
                assert(after[i] == more[i - before.len()]);
            }
        }
        assert forall|c: usize, s: usize, a: usize| c < count && #[trigger] is_pick(
            state,
            (c, s, a),
        ) implies after.contains((c, s, a)) by {
            if c < last {
                assert(before.contains((c, s, a)));
                let k = choose|k: int| 0 <= k < before.len() && before[k] == (c, s, a);
                assert(after[k] == (c, s, a));
            } else {
                assert(more.contains((c, s, a)));
                let k = choose|k: int| 0 <= k < more.len() && more[k] == (c, s, a);
                assert(after[before.len() + k] == (c, s, a));
            }
        }
    }
}

proof fn lemma_distinct_places(
    state: State,
    places: Seq<(usize, usize, usize)>,
    list: Seq<catalog::Asset>,
) -> (order: Seq<(usize, usize, usize)>)
    requires
        leads_to(state, places, list),
    ensures
        leads_to(state, order, selection::distinct(list)),
        forall|i: int| 0 <= i < order.len() ==> places.contains(#[trigger] order[i]),
        forall|i: int, k: int|
            0 <= i < order.len() && 0 <= k < places.len() && list[k].file_name
                == selection::distinct(list)[i].file_name ==> !earlier(
                #[trigger] places[k],
                #[trigger] order[i],
            ),
        forall|k: int|
            0 <= k < list.len() ==> selection::has_file(
                selection::distinct(list),
                (#[trigger] list[k]).file_name,
            ),
    decreases list.len(),
{
    if list.len() == 0 {
        Seq::empty()
    } else {
        let fewer = places.drop_last();
        let less = list.drop_last();
        let last = list.len() - 1;
        assert forall|i: int| 0 <= i < fewer.len() implies is_pick(state, #[trigger] fewer[i])
            && less[i] == asset_at(state, fewer[i]) by {
            assert(fewer[i] == places[i]);
        }
        assert forall|i: int, j: int| 0 <= i < j < fewer.len() implies earlier(
            #[trigger] fewer[i],
            #[trigger] fewer[j],
        ) by {
            assert(earlier(places[i], places[j]));
        }
        let before = lemma_distinct_places(state, fewer, less);
        let kept = selection::distinct(less);
        let all = selection::distinct(list);
        assert(is_pick(state, places[last]));
        let order = if selection::has_file(kept, list.last().file_name) {
            before
        } else {
            before.push(places[last])
        };
        assert forall|i: int| 0 <= i < before.len() implies earlier(
            #[trigger] before[i],
            places[last],
        ) by {
            assert(fewer.contains(before[i]));
            let k = choose|k: int| 0 <= k < fewer.len() && fewer[k] == before[i];
            assert(earlier(places[k], places[last]));
        }
        assert forall|i: int| 0 <= i < order.len() implies places.contains(#[trigger] order[i]) by {
            if i < before.len() {
                assert(order[i] == before[i]);
                let k = choose|k: int| 0 <= k < fewer.len() && fewer[k] == before[i];
                assert(places[k] == order[i]);
            }
        }
        assert forall|i: int, k: int|
            0 <= i < order.len() && 0 <= k < places.len() && list[k].file_name
                == all[i].file_name implies !earlier(#[trigger] places[k], #[trigger] order[i]) by {
            if i < before.len() {
                assert(order[i] == before[i]);
                assert(all[i] == kept[i]);
                if k < last {
                    assert(fewer[k] == places[k]);
                    assert(less[k] == list[k]);
                } else {
                    assert(earlier(before[i], places[last]));
                }
            } else if k < last {
                assert(less[k] == list[k]);
                assert(selection::has_file(kept, less[k].file_name));
            }
        }
        assert forall|k: int| 0 <= k < list.len() implies selection::has_file(
            all,
            (#[trigger] list[k]).file_name,
        ) by {
            if k < last {
                assert(less[k] == list[k]);
                let i = choose|i: int|
                    0 <= i < kept.len() && (#[trigger] kept[i]).file_name == list[k].file_name;
                assert(all[i].file_name == list[k].file_name);
            } else if !selection::has_file(kept, list.last().file_name) {
                assert(all[kept.len() as int] == list[k]);
            }
        }
        order
    }
}

/// What is chosen is downloaded in the order of the catalog. Each asset to download stands for the
/// first place in the catalog at which its file is chosen.
pub proof fn law_selection_follows_the_catalog(state: State) -> (order: Seq<(usize, usize, usize)>)
    requires
        catalog::countable(state.catalog),
    ensures
        order.len() == selection::selection(state).len(),
        forall|i: int|
            0 <= i < order.len() ==> is_pick(state, #[trigger] order[i]) && asset_at(
                state,
                order[i],
            ) == selection::selection(state)[i],
        forall|i: int, j: int|
            0 <= i < j < order.len() ==> earlier(#[trigger] order[i], #[trigger] order[j]),
        forall|i: int, c: usize, s: usize, a: usize|
            0 <= i < order.len() && is_pick(state, (c, s, a)) && asset_at(
                state,
                (c, s, a),
            ).file_name == selection::selection(state)[i].file_name ==> !#[trigger] earlier(
                (c, s, a),
                order[i],
            ),
{
    let count = state.catalog.len();
    let places = places_among(state, count);
    let list = selection::chosen_among(state, count);
    lemma_places_among(state, count);
    let order = lemma_distinct_places(state, places, list);
    assert forall|i: int, c: usize, s: usize, a: usize|
        0 <= i < order.len() && is_pick(state, (c, s, a)) && asset_at(state, (c, s, a)).file_name
            == selection::selection(state)[i].file_name implies !#[trigger] earlier(
        (c, s, a),
        order[i],
    ) by {
        assert(places.contains((c, s, a)));
        let k = choose|k: int| 0 <= k < places.len() && places[k] == (c, s, a);
        assert(list[k] == asset_at(state, places[k]));
        assert(!earlier(places[k], order[i]));
    }
    order
}

} // verus!
