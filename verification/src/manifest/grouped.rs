//! The grouped manifest: assets somewhere in nested objects, whose keys name the groups.

use vstd::hash_map::StringHashMap;
use vstd::multiset::Multiset;
use vstd::prelude::*;

use crate::catalog;
use crate::catalog::{WallpaperAsset, WallpaperCatalog, WallpaperCategory, WallpaperSubcategory};
use crate::json;
use crate::json::Json;
use crate::manifest::assets;
use crate::manifest::assets::{extract_asset, resolve_label};
use crate::naming;
use crate::strings::StringsCatalog;
use crate::text;

verus! {

// ---------------------------------------------------------------------------------------------
// Keys
// ---------------------------------------------------------------------------------------------
/// The keys under which no group of assets is looked for.
pub open spec fn metadata_keys() -> Seq<Seq<char>> {
    seq![
        "assets"@,
        "items"@,
        "children"@,
        "entries"@,
        "data"@,
        "taxonomy"@,
        "subcategories"@,
        "categories"@,
        "localizedName"@,
        "localizedNameKey"@,
        "representativeAssetID"@,
        "id"@,
        "name"@,
        "title"@,
        "description"@,
        "subtitle"@,
        "storyline"@,
        "category"@,
        "displayName"@,
        "accessibilityLabel"@,
    ]
}

/// The keys that name no group.
pub open spec fn container_keys() -> Seq<Seq<char>> {
    seq![
        "assets"@,
        "items"@,
        "children"@,
        "entries"@,
        "data"@,
        "categories"@,
        "subcategories"@,
    ]
}

/// Under a key that names no group, no group is looked for either.
pub proof fn law_containers_are_metadata(key: Seq<char>)
    requires
        container_keys().contains(key),
    ensures
        metadata_keys().contains(key),
{
    let metadata = metadata_keys();
    assert(metadata[0] == "assets"@ && metadata[1] == "items"@ && metadata[2] == "children"@);
    assert(metadata[3] == "entries"@ && metadata[4] == "data"@);
    assert(metadata[6] == "subcategories"@ && metadata[7] == "categories"@);
}

/// Whether no group of assets is looked for under a key.
pub fn is_metadata_key(key: &str) -> (is: bool)
    ensures
        is == metadata_keys().contains(key@),
{
    let keys = [
        "assets",
        "items",
        "children",
        "entries",
        "data",
        "taxonomy",
        "subcategories",
        "categories",
        "localizedName",
        "localizedNameKey",
        "representativeAssetID",
        "id",
        "name",
        "title",
        "description",
        "subtitle",
        "storyline",
        "category",
        "displayName",
        "accessibilityLabel",
    ];
    assert(text::words(keys@) =~= metadata_keys());
    text::is_among(key, &keys)
}

/// Whether a key names no group.
pub fn is_container_key(key: &str) -> (is: bool)
    ensures
        is == container_keys().contains(key@),
{
    let keys = ["assets", "items", "children", "entries", "data", "categories", "subcategories"];
    assert(text::words(keys@) =~= container_keys());
    text::is_among(key, &keys)
}

// ---------------------------------------------------------------------------------------------
// Assets with their paths
// ---------------------------------------------------------------------------------------------
/// The path of a member of an object that lies at `path`.
pub open spec fn member_path(path: Seq<Seq<char>>, key: Seq<char>) -> Seq<Seq<char>> {
    if container_keys().contains(key) {
        path
    } else {
        path.push(key)
    }
}

/// The assets in a value that lies at `path`, each with its own path.
pub open spec fn grouped(
    tree: json::Tree,
    path: Seq<Seq<char>>,
    labels: Option<Map<Seq<char>, Seq<char>>>,
) -> Seq<(Seq<Seq<char>>, catalog::Asset)>
    decreases tree,
{
    match tree {
        json::Tree::Array(items) => grouped_items(items, path, labels),
        json::Tree::Object(members) => match assets::asset_in(members, labels) {
            Some(asset) => seq![(path, asset)],
            None => grouped_members(members, path, labels),
        },
        _ => Seq::empty(),
    }
}

/// The assets in the items of a list that lies at `path`.
pub open spec fn grouped_items(
    items: Seq<json::Tree>,
    path: Seq<Seq<char>>,
    labels: Option<Map<Seq<char>, Seq<char>>>,
) -> Seq<(Seq<Seq<char>>, catalog::Asset)>
    decreases items,
{
    if items.len() == 0 {
        Seq::empty()
    } else {
        grouped_items(items.drop_last(), path, labels) + grouped(
            items[items.len() - 1],
            path,
            labels,
        )
    }
}

/// The assets in the members of an object that lies at `path`.
pub open spec fn grouped_members(
    members: Seq<(Seq<char>, json::Tree)>,
    path: Seq<Seq<char>>,
    labels: Option<Map<Seq<char>, Seq<char>>>,
) -> Seq<(Seq<Seq<char>>, catalog::Asset)>
    decreases members,
{
    if members.len() == 0 {
        Seq::empty()
    } else {
        let head = grouped_members(members.drop_last(), path, labels);
        let (key, child) = members[members.len() - 1];
        if metadata_keys().contains(key) {
            head
        } else {
            head + grouped(child, member_path(path, key), labels)
        }
    }
}

/// The contents of a list of assets with their paths.
pub open spec fn entries(list: Seq<(Vec<String>, WallpaperAsset)>) -> Seq<
    (Seq<Seq<char>>, catalog::Asset),
> {
    Seq::new(list.len(), |i: int| (text::texts(list[i].0@), list[i].1@))
}

fn copy_path(path: &Vec<String>) -> (copy: Vec<String>)
    ensures
        text::texts(copy@) == text::texts(path@),
{
    let copy = path.clone();
    assert(text::texts(copy@) =~= text::texts(path@));
    copy
}

/// Collects the assets in a value that lies at `path`, behind those in `out`.
pub fn collect_grouped_assets(
    value: &Json,
    strings: Option<&StringsCatalog>,
    path: &Vec<String>,
    out: &mut Vec<(Vec<String>, WallpaperAsset)>,
)
    ensures
        entries(final(out)@) == entries(old(out)@) + grouped(
            value@,
            text::texts(path@),
            assets::labels_in(strings),
        ),
    decreases value@,
{
    let ghost tree = value@;
    let ghost before = entries(out@);
    let ghost labels = assets::labels_in(strings);
    let ghost names = text::texts(path@);
    proof {
        json::lemma_view(*value);
    }
    match value {
        Json::Array(items) => {
            let ghost all = json::trees(items@);
            let mut i: usize = 0;
            assert(all.take(0) =~= Seq::<json::Tree>::empty());
            assert(entries(out@) =~= before + grouped_items(all.take(0), names, labels));
            while i < items.len()
                invariant
                    i <= items.len(),
                    all == json::trees(items@),
                    tree == value@,
                    tree == json::Tree::Array(all),
                    labels == assets::labels_in(strings),
                    names == text::texts(path@),
                    entries(out@) == before + grouped_items(all.take(i as int), names, labels),
                decreases items.len() - i,
            {
                let ghost now = all.take(i + 1);
                assert(now.drop_last() =~= all.take(i as int));
                assert(now[now.len() - 1] == items@[i as int]@);
                assert(all[i as int] == items@[i as int]@);
                assert(decreases_to!(tree => tree->Array_0));
                assert(decreases_to!(tree->Array_0 => tree->Array_0[i as int]));
                collect_grouped_assets(&items[i], strings, path, out);
                i = i + 1;
                assert(entries(out@) =~= before + grouped_items(now, names, labels));
            }
            assert(all.take(i as int) =~= all);
        },
        Json::Object(map) => {
            let ghost all = json::pairs(map@);
            if let Some(asset) = extract_asset(map, strings) {
                out.push((copy_path(path), asset));
                assert(entries(out@) =~= before + seq![(names, asset@)]);
                return;
            }
            let mut i: usize = 0;
            assert(all.take(0) =~= Seq::<(Seq<char>, json::Tree)>::empty());
            assert(entries(out@) =~= before + grouped_members(all.take(0), names, labels));
            while i < map.len()
                invariant
                    i <= map.len(),
                    all == json::pairs(map@),
                    tree == value@,
                    tree == json::Tree::Object(all),
                    labels == assets::labels_in(strings),
                    names == text::texts(path@),
                    entries(out@) == before + grouped_members(all.take(i as int), names, labels),
                decreases map.len() - i,
            {
                let ghost now = all.take(i + 1);
                assert(now.drop_last() =~= all.take(i as int));
                assert(now[now.len() - 1] == all[i as int]);
                assert(all[i as int] == (map@[i as int].0@, map@[i as int].1@));
                let key = map[i].0.as_str();
                if !is_metadata_key(key) {
                    let mut next_path = copy_path(path);
                    if !is_container_key(key) {
                        next_path.push(key.to_owned());
                        assert(text::texts(next_path@) =~= names.push(key@));
                    }
                    assert(decreases_to!(tree => tree->Object_0));
                    assert(decreases_to!(tree->Object_0 => tree->Object_0[i as int]));
                    assert(decreases_to!(tree->Object_0[i as int] => tree->Object_0[i as int].1));
                    collect_grouped_assets(&map[i].1, strings, &next_path, out);
                }
                i = i + 1;
                assert(entries(out@) =~= before + grouped_members(now, names, labels));
            }
            assert(all.take(i as int) =~= all);
        },
        _ => {
            assert(entries(out@) =~= before + Seq::<(Seq<Seq<char>>, catalog::Asset)>::empty());
        },
    }
}

// ---------------------------------------------------------------------------------------------
// Arranging the assets
// ---------------------------------------------------------------------------------------------
/// The category that a path names: its first name.
pub open spec fn category_name(path: Seq<Seq<char>>) -> Seq<char> {
    if path.len() == 0 {
        naming::general()
    } else {
        path[0]
    }
}

/// The subcategory that a path names: its names behind the first.
pub open spec fn subcategory_name(path: Seq<Seq<char>>) -> Seq<char> {
    if path.len() > 1 {
        text::joined(path.skip(1), " / "@)
    } else {
        "All Wallpapers"@
    }
}

/// The first position of `name` in `names`; their number where it is none of them.
pub open spec fn position(names: Seq<Seq<char>>, name: Seq<char>) -> int
    decreases names.len(),
{
    if names.len() == 0 || names[0] == name {
        0
    } else {
        1 + position(names.drop_first(), name)
    }
}

proof fn lemma_position(names: Seq<Seq<char>>, name: Seq<char>)
    ensures
        0 <= position(names, name) <= names.len(),
        forall|i: int| 0 <= i < position(names, name) ==> #[trigger] names[i] != name,
        position(names, name) < names.len() ==> names[position(names, name)] == name,
    decreases names.len(),
{
    if names.len() > 0 && names[0] != name {
        let rest = names.drop_first();
        lemma_position(rest, name);
        assert forall|i: int| 0 <= i < position(names, name) implies #[trigger] names[i] != name by {
            if i > 0 {
                assert(rest[i - 1] == names[i]);
            }
        }
    }
}

/// The names of a list of subcategories.
pub open spec fn names_of(list: Seq<catalog::Subcategory>) -> Seq<Seq<char>> {
    Seq::new(list.len(), |i: int| list[i].name)
}

/// A new category by its raw name.
pub open spec fn new_category(name: Seq<char>) -> catalog::Category {
    catalog::Category {
        id: text::lowercase(name),
        name: naming::normal_label(name),
        description: None,
        subcategories: Seq::empty(),
    }
}

/// A new subcategory by its raw name.
pub open spec fn new_subcategory(name: Seq<char>) -> catalog::Subcategory {
    catalog::Subcategory {
        id: text::lowercase(name),
        name: naming::normal_label(name),
        description: None,
        assets: Seq::empty(),
    }
}

/// Categories together with the raw names they were made for.
pub struct Arrangement {
    pub names: Seq<Seq<char>>,
    pub categories: Seq<catalog::Category>,
}

/// An arrangement with room for a category by its raw name.
pub open spec fn with_category(arrangement: Arrangement, name: Seq<char>) -> Arrangement {
    if position(arrangement.names, name) < arrangement.names.len() {
        arrangement
    } else {
        Arrangement {
            names: arrangement.names.push(name),
            categories: arrangement.categories.push(new_category(name)),
        }
    }
}

/// A category with room for a subcategory. A raw name finds the subcategory whose label it is.
pub open spec fn with_subcategory(category: catalog::Category, name: Seq<char>) -> catalog::Category {
    if position(names_of(category.subcategories), name) < category.subcategories.len() {
        category
    } else {
        catalog::Category {
            subcategories: category.subcategories.push(new_subcategory(name)),
            ..category
        }
    }
}

/// An arrangement with one more asset: in the category made for its path's first name, in the
/// subcategory labelled by the others.
pub open spec fn with_entry(
    arrangement: Arrangement,
    path: Seq<Seq<char>>,
    asset: catalog::Asset,
) -> Arrangement {
    let roomy = with_category(arrangement, category_name(path));
    let at = position(arrangement.names, category_name(path));
    let category = with_subcategory(roomy.categories[at], subcategory_name(path));
    let inner = position(
        names_of(roomy.categories[at].subcategories),
        subcategory_name(path),
    );
    Arrangement {
        names: roomy.names,
        categories: catalog::with_asset(roomy.categories.update(at, category), at, inner, asset),
    }
}

/// The arrangement of assets by their paths, in their order.
pub open spec fn arranged(list: Seq<(Seq<Seq<char>>, catalog::Asset)>) -> Arrangement
    decreases list.len(),
{
    if list.len() == 0 {
        Arrangement { names: Seq::empty(), categories: Seq::empty() }
    } else {
        with_entry(arranged(list.drop_last()), list.last().0, list.last().1)
    }
}

/// The value in which a grouped manifest keeps its assets.
pub open spec fn grouped_root(tree: json::Tree) -> json::Tree {
    match json::field(tree, "assets"@) {
        Some(inner) => inner,
        None => tree,
    }
}

/// The catalog that a grouped manifest describes: there is one where there is an asset.
pub open spec fn grouped_catalog(
    tree: json::Tree,
    labels: Option<Map<Seq<char>, Seq<char>>>,
) -> Option<Seq<catalog::Category>> {
    let list = grouped(grouped_root(tree), Seq::empty(), labels);
    if list.len() == 0 {
        None
    } else {
        Some(arranged(list).categories)
    }
}

/// An arrangement has a name for each category, and no name twice.
proof fn lemma_arranged(list: Seq<(Seq<Seq<char>>, catalog::Asset)>)
    ensures
        arranged(list).names.len() == arranged(list).categories.len(),
        arranged(list).names.no_duplicates(),
    decreases list.len(),
{
    if list.len() > 0 {
        let before = arranged(list.drop_last());
        lemma_arranged(list.drop_last());
        lemma_position(before.names, category_name(list.last().0));
        let after = arranged(list);
        assert forall|i: int, j: int|
            0 <= i < after.names.len() && 0 <= j < after.names.len() && i != j implies after.names[i]
            != after.names[j] by {}
    }
}

/// Whether a table gives the position of each name.
spec fn indexes_names(table: Map<Seq<char>, usize>, names: Seq<Seq<char>>) -> bool {
    forall|name: Seq<char>|
        #![trigger table.contains_key(name)]
        #![trigger position(names, name)]
        if position(names, name) < names.len() {
            table.contains_key(name) && table[name] == position(names, name)
        } else {
            !table.contains_key(name)
        }
}

proof fn lemma_position_after_push(names: Seq<Seq<char>>, last: Seq<char>, name: Seq<char>)
    requires
        position(names, last) == names.len(),
    ensures
        position(names.push(last), name) == if position(names, name) < names.len() {
            position(names, name)
        } else if name == last {
            names.len() as int
        } else {
            names.len() as int + 1
        },
    decreases names.len(),
{
    lemma_position(names, name);
    lemma_position(names, last);
    lemma_position(names.push(last), name);
    let at = position(names.push(last), name);
    if position(names, name) < names.len() {
        assert(names.push(last)[position(names, name)] == name);
        if at < position(names, name) {
            assert(names[at] == name);
        }
    } else {
        if at < names.len() {
            assert(names[at] == name);
        }
        assert(names.push(last)[names.len() as int] == last);
    }
}

fn find_subcategory(list: &Vec<WallpaperSubcategory>, name: &str) -> (at: usize)
    ensures
        at == position(names_of(catalog::subcategories(list@)), name@),
        at <= list.len(),
{
    let ghost names = names_of(catalog::subcategories(list@));
    proof {
        lemma_position(names, name@);
    }
    let mut at: usize = 0;
    while at < list.len()
        invariant
            at <= position(names, name@) <= list.len(),
            names == names_of(catalog::subcategories(list@)),
            position(names, name@) < list.len() ==> names[position(names, name@)] == name@,
            forall|i: int| 0 <= i < position(names, name@) ==> #[trigger] names[i] != name@,
        decreases list.len() - at,
    {
        assert(names[at as int] == list@[at as int].name@);
        if text::same_text(list[at].name.as_str(), name) {
            return at;
        }
        at = at + 1;
    }
    at
}

fn add_entry(
    list: &mut Vec<WallpaperCategory>,
    table: &mut StringHashMap<usize>,
    path: &Vec<String>,
    asset: WallpaperAsset,
    strings: Option<&StringsCatalog>,
    Ghost(before): Ghost<Arrangement>,
)
    requires
        before.names.len() == before.categories.len(),
        catalog::categories(old(list)@) == before.categories,
        indexes_names(old(table)@, before.names),
    ensures
        catalog::categories(final(list)@) == with_entry(
            before,
            text::texts(path@),
            asset@,
        ).categories,
        indexes_names(final(table)@, with_entry(before, text::texts(path@), asset@).names),
{
    let ghost names = text::texts(path@);
    let raw_category = if path.len() == 0 {
        "General".to_owned()
    } else {
        path[0].clone()
    };
    let raw_subcategory = if path.len() > 1 {
        text::join_from(path, 1, " / ")
    } else {
        "All Wallpapers".to_owned()
    };
    let ghost label = category_name(names);
    let ghost inner_label = subcategory_name(names);
    assert(raw_category@ == label);
    assert(raw_subcategory@ == inner_label);
    let ghost roomy = with_category(before, label);
    proof {
        lemma_position(before.names, label);
        assert(catalog::categories(list@).len() == list@.len());
    }
    let category_idx = match table.get(raw_category.as_str()) {
        Some(at) => *at,
        None => {
            let at = list.len();
            let fresh = WallpaperCategory {
                id: raw_category.as_str().to_lowercase(),
                name: resolve_label(strings, None, Some(raw_category.clone())),
                description: None,
                subcategories: Vec::new(),
            };
            assert(catalog::subcategories(fresh.subcategories@) =~= Seq::<
                catalog::Subcategory,
            >::empty());
            assert(fresh@ == new_category(label));
            list.push(fresh);
            assert(catalog::categories(list@) =~= roomy.categories);
            table.insert(raw_category, at);
            assert forall|name: Seq<char>|
                #![trigger table@.contains_key(name)]
                #![trigger position(roomy.names, name)]
                if position(roomy.names, name) < roomy.names.len() {
                    table@.contains_key(name) && table@[name] == position(roomy.names, name)
                } else {
                    !table@.contains_key(name)
                } by {
                lemma_position_after_push(before.names, label, name);
                assert(old(table)@.contains_key(name) == old(table)@.contains_key(name));
            }
            at
        },
    };
    assert(catalog::categories(list@) == roomy.categories);
    assert(category_idx == position(before.names, label));
    let ghost at = category_idx as int;
    let ghost old_category = list@[at]@;
    assert(roomy.categories[at] == old_category);
    let sub_idx = find_subcategory(
        &list[category_idx].subcategories,
        raw_subcategory.as_str(),
    );
    let ghost widened = with_subcategory(old_category, inner_label);
    assert(old_category.subcategories.len() == list@[at].subcategories@.len());
    if sub_idx == list[category_idx].subcategories.len() {
        let fresh = WallpaperSubcategory {
            id: raw_subcategory.as_str().to_lowercase(),
            name: resolve_label(strings, None, Some(raw_subcategory.clone())),
            description: None,
            assets: Vec::new(),
        };
        assert(catalog::assets(fresh.assets@) =~= Seq::<catalog::Asset>::empty());
        assert(fresh@ == new_subcategory(inner_label));
        list[category_idx].subcategories.push(fresh);
        assert(catalog::subcategories(list@[at].subcategories@)
            =~= old_category.subcategories.push(fresh@));
        assert(list@[at]@ == widened);
    }
    assert(catalog::categories(list@) =~= roomy.categories.update(at, widened));
    catalog::add_asset(list, category_idx, sub_idx, asset);
}

/// Reads a manifest that groups its assets by the keys of nested objects.
pub fn parse_heuristic_catalog(json: &Json, strings: Option<&StringsCatalog>) -> (found: Option<
    WallpaperCatalog,
>)
    ensures
        match found {
            Some(found) => grouped_catalog(json@, assets::labels_in(strings)) == Some(found@)
                && catalog::countable(found@),
            None => grouped_catalog(json@, assets::labels_in(strings)) is None,
        },
{
    let root = match json.get("assets") {
        Some(inner) => inner,
        None => json,
    };
    let mut list: Vec<(Vec<String>, WallpaperAsset)> = Vec::new();
    let no_path: Vec<String> = Vec::new();
    collect_grouped_assets(root, strings, &no_path, &mut list);
    let ghost all = entries(list@);
    proof {
        assert(text::texts(no_path@) =~= Seq::<Seq<char>>::empty());
        assert(all =~= grouped(root@, Seq::empty(), assets::labels_in(strings)));
    }
    if list.len() == 0 {
        return None;
    }
    let mut categories: Vec<WallpaperCategory> = Vec::new();
    let mut table: StringHashMap<usize> = StringHashMap::new();
    let ghost source = list@;
    assert(all.len() == list.len());
    assert(all.take(0) =~= Seq::<(Seq<Seq<char>>, catalog::Asset)>::empty());
    assert(catalog::categories(categories@) =~= Seq::<catalog::Category>::empty());
    for entry in iter: list
        invariant
            iter.seq() == source,
            all == entries(source),
            catalog::categories(categories@) == arranged(
                all.take(iter.index() as int),
            ).categories,
            indexes_names(table@, arranged(all.take(iter.index() as int)).names),
    {
        let ghost now = all.take(iter.index() as int + 1);
        proof {
            assert(now.drop_last() =~= all.take(iter.index() as int));
            assert(now.last() == (text::texts(entry.0@), entry.1@));
            lemma_arranged(now.drop_last());
        }
        add_entry(
            &mut categories,
            &mut table,
            &entry.0,
            entry.1,
            strings,
            Ghost(arranged(now.drop_last())),
        );
    }
    assert(all.take(all.len() as int) =~= all);
    let found = WallpaperCatalog { categories };
    proof {
        law_grouped_catalog_holds_each_asset(json@, assets::labels_in(strings));
        entry_assets(all).to_multiset_ensures();
        catalog::lemma_countable(found);
    }
    Some(found)
}

// ---------------------------------------------------------------------------------------------
// No asset is lost
// ---------------------------------------------------------------------------------------------
/// The assets in a list of assets with their paths.
pub open spec fn entry_assets(list: Seq<(Seq<Seq<char>>, catalog::Asset)>) -> Seq<catalog::Asset> {
    Seq::new(list.len(), |i: int| list[i].1)
}

proof fn lemma_entry_is_added(
    arrangement: Arrangement,
    path: Seq<Seq<char>>,
    asset: catalog::Asset,
)
    requires
        arrangement.names.len() == arrangement.categories.len(),
    ensures
        catalog::held(with_entry(arrangement, path, asset).categories) == catalog::held(
            arrangement.categories,
        ).insert(asset),
        !catalog::bare(with_entry(arrangement, path, asset).categories),
{
    let none = Multiset::<catalog::Asset>::empty();
    let nothing = Seq::<catalog::Asset>::empty();
    nothing.to_multiset_ensures();
    assert(nothing.to_multiset() =~= none);
    assert(seq![asset] =~= nothing.push(asset));
    assert(seq![asset].to_multiset() =~= Multiset::singleton(asset));
    let name = category_name(path);
    let inner_name = subcategory_name(path);
    let roomy = with_category(arrangement, name);
    let at = position(arrangement.names, name);
    lemma_position(arrangement.names, name);
    if at == arrangement.names.len() {
        assert(roomy.categories.drop_last() =~= arrangement.categories);
        assert(catalog::held_in(new_category(name).subcategories) == none);
        assert(catalog::held(roomy.categories) =~= catalog::held(arrangement.categories));
    }
    let category = roomy.categories[at];
    let widened = with_subcategory(category, inner_name);
    let inner = position(names_of(category.subcategories), inner_name);
    lemma_position(names_of(category.subcategories), inner_name);
    if inner == category.subcategories.len() {
        assert(widened.subcategories.drop_last() =~= category.subcategories);
        assert(catalog::held_in(widened.subcategories) =~= catalog::held_in(
            category.subcategories,
        ).add(nothing.to_multiset()));
    } else {
        assert(catalog::held_in(widened.subcategories) =~= catalog::held_in(
            category.subcategories,
        ).add(nothing.to_multiset()));
    }
    catalog::lemma_held_after_change(roomy.categories, at, widened, nothing);
    let wide = roomy.categories.update(at, widened);
    assert(catalog::held(wide) =~= catalog::held(arrangement.categories));
    catalog::lemma_held_with_more(wide, at, inner, seq![asset]);
    let after = with_entry(arrangement, path, asset).categories;
    assert(catalog::held(after) =~= catalog::held(arrangement.categories).insert(asset));
    assert(after[at].subcategories.len() > 0);
}

proof fn lemma_arranging_keeps_assets(list: Seq<(Seq<Seq<char>>, catalog::Asset)>)
    ensures
        catalog::held(arranged(list).categories) == entry_assets(list).to_multiset(),
        list.len() > 0 ==> !catalog::bare(arranged(list).categories),
    decreases list.len(),
{
    if list.len() == 0 {
        entry_assets(list).to_multiset_ensures();
        assert(catalog::held(arranged(list).categories) =~= entry_assets(list).to_multiset());
    } else {
        let rest = list.drop_last();
        lemma_arranging_keeps_assets(rest);
        lemma_arranged(rest);
        lemma_entry_is_added(arranged(rest), list.last().0, list.last().1);
        entry_assets(rest).to_multiset_ensures();
        assert(entry_assets(list) =~= entry_assets(rest).push(list.last().1));
        assert(catalog::held(arranged(list).categories) =~= entry_assets(list).to_multiset());
    }
}

/// A catalog made of a grouped manifest holds each asset found in the manifest, each as often as it
/// is found there, and no other; and there is a subcategory.
pub proof fn law_grouped_catalog_holds_each_asset(
    tree: json::Tree,
    labels: Option<Map<Seq<char>, Seq<char>>>,
)
    requires
        grouped_catalog(tree, labels) is Some,
    ensures
        catalog::held(grouped_catalog(tree, labels)->0) == entry_assets(
            grouped(grouped_root(tree), Seq::empty(), labels),
        ).to_multiset(),
        !catalog::bare(grouped_catalog(tree, labels)->0),
{
    lemma_arranging_keeps_assets(grouped(grouped_root(tree), Seq::empty(), labels));
}

// ---------------------------------------------------------------------------------------------
// The order of the groups
// ---------------------------------------------------------------------------------------------
/// The names of a list, each once, in the order in which they are first seen.
pub open spec fn first_seen(names: Seq<Seq<char>>) -> Seq<Seq<char>>
    decreases names.len(),
{
    if names.len() == 0 {
        names
    } else {
        let front = first_seen(names.drop_last());
        if front.contains(names.last()) {
            front
        } else {
            front.push(names.last())
        }
    }
}

/// The names as they are first seen are those of the list, none twice, and of two of them that
/// comes first which is seen first.
pub proof fn law_first_seen(names: Seq<Seq<char>>)
    ensures
        first_seen(names).no_duplicates(),
        forall|name: Seq<char>| #[trigger]
            first_seen(names).contains(name) <==> names.contains(name),
        forall|i: int, j: int|
            0 <= i < j < first_seen(names).len() ==> position(
                names,
                #[trigger] first_seen(names)[i],
            ) < position(names, #[trigger] first_seen(names)[j]),
    decreases names.len(),
{
    if names.len() > 0 {
        let front = names.drop_last();
        let last = names.last();
        let before = first_seen(front);
        let after = first_seen(names);
        law_first_seen(front);
        assert(names =~= front.push(last));
        assert forall|name: Seq<char>| #[trigger]
            after.contains(name) <==> names.contains(name) by {
            if names.contains(name) && name != last {
                let i = choose|i: int| 0 <= i < names.len() && names[i] == name;
                assert(front[i] == name);
                assert(before.contains(name));
                let k = choose|k: int| 0 <= k < before.len() && before[k] == name;
                assert(after[k] == name);
            }
            if names.contains(name) && name == last && !before.contains(last) {
                assert(after[before.len() as int] == name);
            }
            if after.contains(name) {
                let k = choose|k: int| 0 <= k < after.len() && after[k] == name;
                if k < before.len() {
                    assert(before.contains(before[k]));
                    let i = choose|i: int| 0 <= i < front.len() && front[i] == name;
                    assert(names[i] == name);
                } else {
                    assert(names[names.len() - 1] == name);
                }
            }
        }
        assert forall|i: int, j: int| 0 <= i < j < after.len() implies position(
            names,
            #[trigger] after[i],
        ) < position(names, #[trigger] after[j]) by {
            assert(before.contains(before[i]));
            lemma_position_in_longer(front, last, after[i]);
            if j < before.len() {
                assert(before.contains(before[j]));
                lemma_position_in_longer(front, last, after[j]);
            } else {
                lemma_position(names, last);
                if position(names, last) < front.len() {
                    assert(front[position(names, last)] == last);
                    assert(front.contains(last));
                }
            }
        }
    }
}

/// A name of a list is found at the same position when the list gets longer.
proof fn lemma_position_in_longer(names: Seq<Seq<char>>, last: Seq<char>, name: Seq<char>)
    requires
        names.contains(name),
    ensures
        position(names.push(last), name) == position(names, name),
        position(names, name) < names.len(),
{
    let longer = names.push(last);
    lemma_position(names, name);
    lemma_position(longer, name);
    let k = choose|k: int| 0 <= k < names.len() && names[k] == name;
    assert(names[k] == name);
    let at = position(names, name);
    assert(longer[at] == name);
    let found = position(longer, name);
    if found < at {
        assert(names[found] == longer[found]);
    }
}

/// The categories that the paths of a list name.
pub open spec fn category_names(list: Seq<(Seq<Seq<char>>, catalog::Asset)>) -> Seq<Seq<char>> {
    Seq::new(list.len(), |i: int| category_name(list[i].0))
}

/// The subcategories that the paths of a list name.
pub open spec fn subcategory_names(list: Seq<(Seq<Seq<char>>, catalog::Asset)>) -> Seq<Seq<char>> {
    Seq::new(list.len(), |i: int| subcategory_name(list[i].0))
}

/// The entries of a list whose paths name a category, in their order.
pub open spec fn in_category(
    list: Seq<(Seq<Seq<char>>, catalog::Asset)>,
    name: Seq<char>,
) -> Seq<(Seq<Seq<char>>, catalog::Asset)> {
    list.filter(|entry: (Seq<Seq<char>>, catalog::Asset)| category_name(entry.0) == name)
}

/// The entries of a list whose paths name a subcategory, in their order.
pub open spec fn in_subcategory(
    list: Seq<(Seq<Seq<char>>, catalog::Asset)>,
    name: Seq<char>,
) -> Seq<(Seq<Seq<char>>, catalog::Asset)> {
    list.filter(|entry: (Seq<Seq<char>>, catalog::Asset)| subcategory_name(entry.0) == name)
}

/// Whether each subcategory that the paths of a list name is its own label.
pub open spec fn labels_are_normal(list: Seq<(Seq<Seq<char>>, catalog::Asset)>) -> bool {
    forall|i: int|
        0 <= i < list.len() ==> naming::normal_label(subcategory_name((#[trigger] list[i]).0))
            == subcategory_name(list[i].0)
}

/// Whether subcategories hold the entries of a category: one for each name, in the order in which
/// the names are first seen, each with the assets of its entries, in the order of the list.
pub open spec fn holds_in_order(
    subcategories: Seq<catalog::Subcategory>,
    list: Seq<(Seq<Seq<char>>, catalog::Asset)>,
) -> bool {
    &&& names_of(subcategories) == first_seen(subcategory_names(list))
    &&& forall|s: int|
        0 <= s < subcategories.len() ==> (#[trigger] subcategories[s]) == (catalog::Subcategory {
            assets: entry_assets(in_subcategory(list, subcategories[s].name)),
            ..new_subcategory(subcategories[s].name)
        })
}

/// Whether categories hold the entries of a list: one for each name, in the order in which the
/// names are first seen. Within a category whose names are their own labels, the subcategories
/// and their assets keep the order of the list.
pub open spec fn groups_in_order(
    categories: Seq<catalog::Category>,
    list: Seq<(Seq<Seq<char>>, catalog::Asset)>,
) -> bool {
    let names = first_seen(category_names(list));
    &&& categories.len() == names.len()
    &&& forall|c: int|
        0 <= c < categories.len() ==> (#[trigger] categories[c]) == (catalog::Category {
            subcategories: categories[c].subcategories,
            ..new_category(names[c])
        })
    &&& forall|c: int|
        #![trigger categories[c]]
        0 <= c < categories.len() && labels_are_normal(in_category(list, names[c]))
            ==> holds_in_order(categories[c].subcategories, in_category(list, names[c]))
}

proof fn lemma_entry_keeps_order(
    category: catalog::Category,
    list: Seq<(Seq<Seq<char>>, catalog::Asset)>,
    entry: (Seq<Seq<char>>, catalog::Asset),
)
    requires
        holds_in_order(category.subcategories, list),
        naming::normal_label(subcategory_name(entry.0)) == subcategory_name(entry.0),
    ensures
        ({
            let name = subcategory_name(entry.0);
            let at = position(names_of(category.subcategories), name);
            let widened = with_subcategory(category, name).subcategories;
            let group = widened[at];
            &&& 0 <= at < widened.len()
            &&& holds_in_order(
                widened.update(at, catalog::with_more_assets(group, seq![entry.1])),
                list.push(entry),
            )
        }),
{
    reveal(Seq::filter);
    let name = subcategory_name(entry.0);
    let before = category.subcategories;
    let names = names_of(before);
    let at = position(names, name);
    lemma_position(names, name);
    let widened = with_subcategory(category, name).subcategories;
    let group = widened[at];
    let after = widened.update(at, catalog::with_more_assets(group, seq![entry.1]));
    assert(group.assets + seq![entry.1] =~= group.assets.push(entry.1));
    let longer = list.push(entry);
    assert(longer.drop_last() =~= list);
    assert(subcategory_names(longer).drop_last() =~= subcategory_names(list));
    assert(subcategory_names(longer).last() == name);
    law_first_seen(subcategory_names(list));
    if at < names.len() {
        assert(names.contains(names[at]));
        assert(names_of(after) =~= names);
    } else {
        assert(!names.contains(name));
        assert(names_of(after) =~= names.push(name));
        lemma_none_in_subcategory(list, name);
        assert(entry_assets(in_subcategory(list, name)) =~= Seq::<catalog::Asset>::empty());
    }
    assert(names_of(after) =~= first_seen(subcategory_names(longer)));
    assert forall|s: int| 0 <= s < after.len() implies (#[trigger] after[s])
        == (catalog::Subcategory {
        assets: entry_assets(in_subcategory(longer, after[s].name)),
        ..new_subcategory(after[s].name)
    }) by {
        if s == at {
            assert(after[s].name == name);
            assert(in_subcategory(longer, name) =~= in_subcategory(list, name).push(entry));
            assert(entry_assets(in_subcategory(longer, name)) =~= entry_assets(
                in_subcategory(list, name),
            ).push(entry.1));
        } else {
            assert(after[s] == before[s]);
            assert(names[s] == before[s].name);
            assert(names[s] != name) by {
                if at < names.len() {
                    assert(names[at] == name);
                }
            }
            assert(in_subcategory(longer, after[s].name) =~= in_subcategory(list, after[s].name));
        }
    }
}

proof fn lemma_none_in_subcategory(list: Seq<(Seq<Seq<char>>, catalog::Asset)>, name: Seq<char>)
    requires
        !subcategory_names(list).contains(name),
    ensures
        in_subcategory(list, name).len() == 0,
    decreases list.len(),
{
    reveal(Seq::filter);
    if list.len() > 0 {
        let rest = list.drop_last();
        assert forall|i: int| 0 <= i < rest.len() implies #[trigger] subcategory_names(rest)[i]
            != name by {
            assert(subcategory_names(list)[i] == subcategory_names(rest)[i]);
        }
        assert(subcategory_names(list)[list.len() - 1] != name);
        lemma_none_in_subcategory(rest, name);
    }
}

proof fn lemma_none_in_category(list: Seq<(Seq<Seq<char>>, catalog::Asset)>, name: Seq<char>)
    requires
        !category_names(list).contains(name),
    ensures
        in_category(list, name).len() == 0,
    decreases list.len(),
{
    reveal(Seq::filter);
    if list.len() > 0 {
        let rest = list.drop_last();
        assert forall|i: int| 0 <= i < rest.len() implies #[trigger] category_names(rest)[i]
            != name by {
            assert(category_names(list)[i] == category_names(rest)[i]);
        }
        assert(category_names(list)[list.len() - 1] != name);
        lemma_none_in_category(rest, name);
    }
}

proof fn lemma_arranged_in_order(list: Seq<(Seq<Seq<char>>, catalog::Asset)>)
    ensures
        arranged(list).names == first_seen(category_names(list)),
        groups_in_order(arranged(list).categories, list),
    decreases list.len(),
{
    if list.len() == 0 {
        assert(category_names(list) =~= Seq::<Seq<char>>::empty());
    } else {
        reveal(Seq::filter);
        let rest = list.drop_last();
        let entry = list.last();
        let name = category_name(entry.0);
        let inner_name = subcategory_name(entry.0);
        let before = arranged(rest);
        let after = arranged(list);
        lemma_arranged_in_order(rest);
        lemma_arranged(rest);
        lemma_arranged(list);
        assert(category_names(list).drop_last() =~= category_names(rest));
        assert(category_names(list).last() == name);
        law_first_seen(category_names(rest));
        let at = position(before.names, name);
        lemma_position(before.names, name);
        let roomy = with_category(before, name);
        if at < before.names.len() {
            assert(before.names.contains(before.names[at]));
        } else {
            assert(!before.names.contains(name));
            lemma_none_in_category(rest, name);
            assert(in_category(rest, name) =~= Seq::empty());
            assert(subcategory_names(in_category(rest, name)) =~= Seq::<Seq<char>>::empty());
            assert(names_of(new_category(name).subcategories) =~= Seq::<Seq<char>>::empty());
            assert(holds_in_order(new_category(name).subcategories, in_category(rest, name)));
        }
        assert(after.names =~= first_seen(category_names(list)));
        let names = after.names;
        let category = roomy.categories[at];
        let inner = position(names_of(category.subcategories), inner_name);
        lemma_position(names_of(category.subcategories), inner_name);
        assert(in_category(list, name) =~= in_category(rest, name).push(entry));
        assert forall|c: int|
            0 <= c < after.categories.len() implies (#[trigger] after.categories[c])
            == (catalog::Category {
            subcategories: after.categories[c].subcategories,
            ..new_category(names[c])
        }) by {
            if c < before.names.len() {
                assert(roomy.categories[c] == before.categories[c]);
            }
        }
        assert forall|c: int|
            #![trigger after.categories[c]]
            0 <= c < after.categories.len() && labels_are_normal(
                in_category(list, names[c]),
            ) implies holds_in_order(
            after.categories[c].subcategories,
            in_category(list, names[c]),
        ) by {
            if c == at {
                let group = in_category(rest, name);
                assert(names[c] == name);
                assert forall|i: int| 0 <= i < group.len() implies naming::normal_label(
                    subcategory_name((#[trigger] group[i]).0),
                ) == subcategory_name(group[i].0) by {
                    assert(group.push(entry)[i] == group[i]);
                }
                assert(group.push(entry)[group.len() as int] == entry);
                assert(holds_in_order(category.subcategories, group));
                lemma_entry_keeps_order(category, group, entry);
            } else {
                assert(names[c] != name);
                assert(names[c] == before.names[c]);
                assert(after.categories[c] == before.categories[c]);
                assert(in_category(list, names[c]) =~= in_category(rest, names[c]));
            }
        }
    }
}

/// A catalog made of a grouped manifest keeps the order of the manifest: the categories come as
/// their names are first seen, and, within a category whose names are their own labels, so do the
/// subcategories, and the assets of each come as they are found.
pub proof fn law_grouped_catalog_keeps_order(
    tree: json::Tree,
    labels: Option<Map<Seq<char>, Seq<char>>>,
)
    requires
        grouped_catalog(tree, labels) is Some,
    ensures
        groups_in_order(
            grouped_catalog(tree, labels)->0,
            grouped(grouped_root(tree), Seq::empty(), labels),
        ),
{
    lemma_arranged_in_order(grouped(grouped_root(tree), Seq::empty(), labels));
}

// ---------------------------------------------------------------------------------------------
// Where assets are found
// ---------------------------------------------------------------------------------------------
/// No asset is looked for under the keys that hold lists, references or texts about an object, and
/// under no other key is none.
pub proof fn law_keys_without_groups(key: Seq<char>)
    ensures
        metadata_keys().contains(key) == seq![
            "assets"@,
            "items"@,
            "children"@,
            "entries"@,
            "data"@,
            "taxonomy"@,
            "subcategories"@,
            "categories"@,
            "localizedName"@,
            "localizedNameKey"@,
            "representativeAssetID"@,
            "id"@,
            "name"@,
            "title"@,
            "description"@,
            "subtitle"@,
            "storyline"@,
            "category"@,
            "displayName"@,
            "accessibilityLabel"@,
        ].contains(key),
        container_keys().contains(key) == seq![
            "assets"@,
            "items"@,
            "children"@,
            "entries"@,
            "data"@,
            "categories"@,
            "subcategories"@,
        ].contains(key),
{
}

/// An object that is an asset is found where it lies, and nothing is looked for in it. Texts,
/// numbers and the like hold no asset.
pub proof fn law_assets_are_found_where_they_lie(
    tree: json::Tree,
    path: Seq<Seq<char>>,
    labels: Option<Map<Seq<char>, Seq<char>>>,
)
    ensures
        tree matches json::Tree::Object(members) ==> (assets::asset_in(members, labels) matches Some(
            asset,
        ) ==> grouped(tree, path, labels) == seq![(path, asset)]),
        !(tree is Object) && !(tree is Array) ==> grouped(tree, path, labels).len() == 0,
{
}

/// A list holds the assets of its items, one item after another; the list itself is no part of
/// their paths.
pub proof fn law_lists_hold_what_their_items_hold(
    items: Seq<json::Tree>,
    last: json::Tree,
    path: Seq<Seq<char>>,
    labels: Option<Map<Seq<char>, Seq<char>>>,
)
    ensures
        grouped(json::Tree::Array(Seq::empty()), path, labels).len() == 0,
        grouped(json::Tree::Array(items.push(last)), path, labels) == grouped(
            json::Tree::Array(items),
            path,
            labels,
        ) + grouped(last, path, labels),
{
    let all = items.push(last);
    assert(all.drop_last() =~= items);
    assert(all[all.len() - 1] == last);
}

/// An object that is no asset holds the assets of its members, one member after another: the key of
/// a member is the next name on their paths. Under the keys without groups nothing is looked for.
pub proof fn law_objects_hold_what_their_members_hold(
    members: Seq<(Seq<char>, json::Tree)>,
    key: Seq<char>,
    child: json::Tree,
    path: Seq<Seq<char>>,
    labels: Option<Map<Seq<char>, Seq<char>>>,
)
    requires
        assets::asset_in(members, labels) is None,
        assets::asset_in(members.push((key, child)), labels) is None,
    ensures
        grouped(json::Tree::Object(Seq::empty()), path, labels).len() == 0,
        grouped(json::Tree::Object(members.push((key, child))), path, labels) == grouped(
            json::Tree::Object(members),
            path,
            labels,
        ) + if metadata_keys().contains(key) {
            Seq::empty()
        } else {
            grouped(child, path.push(key), labels)
        },
{
    let all = members.push((key, child));
    assert(all.drop_last() =~= members);
    assert(all[all.len() - 1] == (key, child));
    let none = Seq::<(Seq<char>, json::Tree)>::empty();
    assets::law_assets_are_read(none, labels);
    assert(assets::silent(none, "id"@));
    if container_keys().contains(key) {
        law_containers_are_metadata(key);
    }
    let head = grouped(json::Tree::Object(members), path, labels);
    assert(head + Seq::<(Seq<Seq<char>>, catalog::Asset)>::empty() =~= head);
}

/// A path names its category first, and with all its other names the subcategory; where it has
/// none, or no others, these have names of their own.
pub proof fn law_paths_name_their_groups(first: Seq<char>, rest: Seq<Seq<char>>)
    ensures
        category_name(Seq::empty()) == "General"@,
        subcategory_name(Seq::empty()) == "All Wallpapers"@,
        category_name(seq![first] + rest) == first,
        subcategory_name(seq![first] + rest) == if rest.len() == 0 {
            "All Wallpapers"@
        } else {
            text::joined(rest, " / "@)
        },
{
    assert((seq![first] + rest).skip(1) =~= rest);
}

/// The first subcategory with a label, where there is one.
pub open spec fn first_labelled(
    list: Seq<catalog::Subcategory>,
    label: Seq<char>,
    at: int,
) -> bool {
    &&& 0 <= at < list.len()
    &&& list[at].name == label
    &&& forall|i: int| 0 <= i < at ==> (#[trigger] list[i]).name != label
}

/// Whether the subcategories of a category are those before with one more asset: the asset stands
/// behind those of the first one that its raw name labels; where there is none, in a new one behind
/// all others, labelled by the raw name made readable.
pub open spec fn takes_in(
    before: Seq<catalog::Subcategory>,
    after: Seq<catalog::Subcategory>,
    name: Seq<char>,
    asset: catalog::Asset,
) -> bool {
    if exists|at: int| first_labelled(before, name, at) {
        let at = choose|at: int| first_labelled(before, name, at);
        after == before.update(
            at,
            catalog::Subcategory { assets: before[at].assets.push(asset), ..before[at] },
        )
    } else {
        after == before.push(
            catalog::Subcategory {
                id: text::lowercase(name),
                name: naming::normal_label(name),
                description: None,
                assets: seq![asset],
            },
        )
    }
}

proof fn lemma_first_labelled(list: Seq<catalog::Subcategory>, label: Seq<char>)
    ensures
        position(names_of(list), label) < list.len() ==> first_labelled(
            list,
            label,
            position(names_of(list), label),
        ),
        position(names_of(list), label) == list.len() ==> forall|at: int|
            !first_labelled(list, label, at),
        0 <= position(names_of(list), label) <= list.len(),
        forall|at: int| first_labelled(list, label, at) ==> at == position(names_of(list), label),
{
    let names = names_of(list);
    lemma_position(names, label);
    let found = position(names, label);
    assert forall|at: int| first_labelled(list, label, at) implies at == found by {
        assert(names[at] == label);
        if found < at {
            assert(names[found] == list[found].name);
        }
    }
    if found < list.len() {
        assert forall|i: int| 0 <= i < found implies (#[trigger] list[i]).name != label by {
            assert(names[i] != label);
        }
    }
}

/// One more asset joins the category that its path names and leaves all others as they are. Where
/// no earlier path names that category, a new one stands behind the others, labelled by the name
/// made readable, with that asset alone.
pub proof fn law_one_more_asset_joins_its_group(
    list: Seq<(Seq<Seq<char>>, catalog::Asset)>,
    path: Seq<Seq<char>>,
    asset: catalog::Asset,
    c: int,
)
    requires
        0 <= c <= first_seen(category_names(list)).len(),
        c < first_seen(category_names(list)).len() ==> first_seen(category_names(list))[c]
            == category_name(path),
        c == first_seen(category_names(list)).len() ==> !category_names(list).contains(
            category_name(path),
        ),
    ensures
        ({
            let name = category_name(path);
            let before = arranged(list).categories;
            let after = arranged(list.push((path, asset))).categories;
            &&& before.len() == first_seen(category_names(list)).len()
            &&& after.len() == if c < before.len() {
                before.len()
            } else {
                before.len() + 1
            }
            &&& forall|d: int|
                0 <= d < before.len() && d != c ==> #[trigger] after[d] == before[d]
            &&& c < before.len() ==> {
                &&& after[c].id == before[c].id
                &&& after[c].name == before[c].name
                &&& after[c].description == before[c].description
                &&& takes_in(
                    before[c].subcategories,
                    after[c].subcategories,
                    subcategory_name(path),
                    asset,
                )
            }
            &&& c == before.len() ==> {
                &&& after[c].id == text::lowercase(name)
                &&& after[c].name == naming::normal_label(name)
                &&& after[c].description is None
                &&& takes_in(Seq::empty(), after[c].subcategories, subcategory_name(path), asset)
            }
        }),
{
    let name = category_name(path);
    let inner_name = subcategory_name(path);
    let longer = list.push((path, asset));
    let before = arranged(list);
    assert(longer.drop_last() =~= list);
    lemma_arranged_in_order(list);
    lemma_arranged(list);
    law_first_seen(category_names(list));
    lemma_position(before.names, name);
    let at = position(before.names, name);
    assert(at == c) by {
        if c < before.names.len() {
            if at < c {
                assert(before.names[at] == before.names[c]);
            }
        } else if at < before.names.len() {
            assert(before.names.contains(before.names[at]));
        }
    }
    let roomy = with_category(before, name);
    let category = roomy.categories[at];
    lemma_first_labelled(category.subcategories, inner_name);
    let inner = position(names_of(category.subcategories), inner_name);
    let after = arranged(longer).categories[at];
    if inner < category.subcategories.len() {
        let chosen = choose|i: int| first_labelled(category.subcategories, inner_name, i);
        assert(first_labelled(category.subcategories, inner_name, inner));
        assert(chosen == inner);
        let own = category.subcategories[inner].assets;
        assert(own + seq![asset] =~= own.push(asset));
        assert(after.subcategories =~= category.subcategories.update(
            inner,
            catalog::Subcategory { assets: own.push(asset), ..category.subcategories[inner] },
        ));
    } else {
        let fresh = catalog::Subcategory {
            id: text::lowercase(inner_name),
            name: naming::normal_label(inner_name),
            description: None,
            assets: seq![asset],
        };
        assert(Seq::<catalog::Asset>::empty() + seq![asset] =~= seq![asset]);
        assert(after.subcategories =~= category.subcategories.push(fresh));
    }
}

/// A grouped manifest keeps its assets under `assets` where it has that, else at its top. It gives
/// a catalog exactly where there is an asset: the assets arranged, and none where there is nothing.
pub proof fn law_grouped_manifests_need_an_asset(
    tree: json::Tree,
    labels: Option<Map<Seq<char>, Seq<char>>>,
)
    ensures
        ({
            let root = match json::field(tree, "assets"@) {
                Some(inner) => inner,
                None => tree,
            };
            let list = grouped(root, Seq::empty(), labels);
            &&& grouped_catalog(tree, labels) is None == (list.len() == 0)
            &&& list.len() > 0 ==> grouped_catalog(tree, labels) == Some(arranged(list).categories)
            &&& arranged(Seq::empty()).categories.len() == 0
        }),
{
}

} // verus!
