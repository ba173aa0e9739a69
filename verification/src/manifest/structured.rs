//! The structured manifest: a list of categories, and a list of assets that refer to them.

use vstd::hash_map::StringHashMap;
use vstd::multiset::Multiset;
use vstd::prelude::*;

use crate::catalog;
use crate::catalog::{WallpaperAsset, WallpaperCatalog, WallpaperCategory, WallpaperSubcategory};
use crate::json;
use crate::json::Json;
use crate::manifest::assets;
use crate::manifest::assets::{extract_asset, resolve_label, string_field};
use crate::strings::StringsCatalog;
use crate::text;

verus! {

// ---------------------------------------------------------------------------------------------
// Categories
// ---------------------------------------------------------------------------------------------
/// The members that may hold the name of a category or a subcategory, best first.
pub open spec fn name_keys() -> Seq<Seq<char>> {
    seq!["localizedName"@, "name"@, "title"@, "displayName"@]
}

/// The members that may hold the description of a category or a subcategory, best first.
pub open spec fn description_keys() -> Seq<Seq<char>> {
    seq!["localizedDescription"@, "localizedDescriptionKey"@, "description"@]
}

/// The name of the category or subcategory that an object describes.
pub open spec fn group_name(
    members: Seq<(Seq<char>, json::Tree)>,
    labels: Option<Map<Seq<char>, Seq<char>>>,
) -> Seq<char> {
    assets::shown_label(
        labels,
        assets::text_field(members, seq!["localizedNameKey"@]),
        assets::text_field(members, name_keys()),
    )
}

/// The subcategory, still empty, that a value describes: there is one where it is an object with an
/// id.
pub open spec fn subcategory_in(
    tree: json::Tree,
    labels: Option<Map<Seq<char>, Seq<char>>>,
) -> Option<catalog::Subcategory> {
    match tree {
        json::Tree::Object(members) => match assets::text_field(members, seq!["id"@]) {
            Some(id) => Some(
                catalog::Subcategory {
                    id,
                    name: group_name(members, labels),
                    description: assets::text_field(members, description_keys()),
                    assets: Seq::empty(),
                },
            ),
            None => None,
        },
        _ => None,
    }
}

/// The subcategories that the items of a list describe, where each of them describes one.
pub open spec fn subcategories_in(
    items: Seq<json::Tree>,
    labels: Option<Map<Seq<char>, Seq<char>>>,
) -> Option<Seq<catalog::Subcategory>>
    decreases items.len(),
{
    if items.len() == 0 {
        Some(Seq::empty())
    } else {
        match (subcategories_in(items.drop_last(), labels), subcategory_in(items.last(), labels)) {
            (Some(head), Some(last)) => Some(head.push(last)),
            _ => None,
        }
    }
}

/// The category, its subcategories still empty, that a value describes: there is one where it is an
/// object with an id, and each item of its list of subcategories, if it has one, describes one.
pub open spec fn category_in(
    tree: json::Tree,
    labels: Option<Map<Seq<char>, Seq<char>>>,
) -> Option<catalog::Category> {
    match tree {
        json::Tree::Object(members) => {
            let inner = match json::member(members, "subcategories"@) {
                Some(json::Tree::Array(items)) => subcategories_in(items, labels),
                _ => Some(Seq::empty()),
            };
            match (assets::text_field(members, seq!["id"@]), inner) {
                (Some(id), Some(subcategories)) => Some(
                    catalog::Category {
                        id,
                        name: group_name(members, labels),
                        description: assets::text_field(members, description_keys()),
                        subcategories,
                    },
                ),
                _ => None,
            }
        },
        _ => None,
    }
}

/// The categories that the items of a list describe, where each of them describes one.
pub open spec fn categories_in(
    items: Seq<json::Tree>,
    labels: Option<Map<Seq<char>, Seq<char>>>,
) -> Option<Seq<catalog::Category>>
    decreases items.len(),
{
    if items.len() == 0 {
        Some(Seq::empty())
    } else {
        match (categories_in(items.drop_last(), labels), category_in(items.last(), labels)) {
            (Some(head), Some(last)) => Some(head.push(last)),
            _ => None,
        }
    }
}

proof fn lemma_subcategories_in_prefix(
    items: Seq<json::Tree>,
    labels: Option<Map<Seq<char>, Seq<char>>>,
    keep: int,
)
    requires
        0 <= keep <= items.len(),
        subcategories_in(items.take(keep), labels) is None,
    ensures
        subcategories_in(items, labels) is None,
    decreases items.len(),
{
    if keep == items.len() {
        assert(items.take(keep) =~= items);
    } else {
        assert(items.drop_last().take(keep) =~= items.take(keep));
        lemma_subcategories_in_prefix(items.drop_last(), labels, keep);
    }
}

proof fn lemma_categories_in_prefix(
    items: Seq<json::Tree>,
    labels: Option<Map<Seq<char>, Seq<char>>>,
    keep: int,
)
    requires
        0 <= keep <= items.len(),
        categories_in(items.take(keep), labels) is None,
    ensures
        categories_in(items, labels) is None,
    decreases items.len(),
{
    if keep == items.len() {
        assert(items.take(keep) =~= items);
    } else {
        assert(items.drop_last().take(keep) =~= items.take(keep));
        lemma_categories_in_prefix(items.drop_last(), labels, keep);
    }
}

fn read_id(map: &Vec<(String, Json)>) -> (id: Option<String>)
    ensures
        text::text_option(id) == assets::text_field(json::pairs(map@), seq!["id"@]),
{
    let keys = ["id"];
    assert(text::words(keys@) =~= seq!["id"@]);
    string_field(map, &keys)
}

fn read_group_name(map: &Vec<(String, Json)>, strings: Option<&StringsCatalog>) -> (name: String)
    ensures
        name@ == group_name(json::pairs(map@), assets::labels_in(strings)),
{
    let label_keys = ["localizedNameKey"];
    assert(text::words(label_keys@) =~= seq!["localizedNameKey"@]);
    let names = ["localizedName", "name", "title", "displayName"];
    assert(text::words(names@) =~= name_keys());
    resolve_label(strings, string_field(map, &label_keys), string_field(map, &names))
}

fn read_group_description(map: &Vec<(String, Json)>) -> (description: Option<String>)
    ensures
        text::text_option(description) == assets::text_field(json::pairs(map@), description_keys()),
{
    let keys = ["localizedDescription", "localizedDescriptionKey", "description"];
    assert(text::words(keys@) =~= description_keys());
    string_field(map, &keys)
}

fn read_subcategory(value: &Json, strings: Option<&StringsCatalog>) -> (subcategory: Option<
    WallpaperSubcategory,
>)
    ensures
        match subcategory {
            Some(subcategory) => subcategory_in(value@, assets::labels_in(strings)) == Some(subcategory@),
            None => subcategory_in(value@, assets::labels_in(strings)) is None,
        },
{
    let map = match value.as_object() {
        Some(map) => map,
        None => {
            return None;
        },
    };
    let id = match read_id(map) {
        Some(id) => id,
        None => {
            return None;
        },
    };
    let subcategory = WallpaperSubcategory {
        id,
        name: read_group_name(map, strings),
        description: read_group_description(map),
        assets: Vec::new(),
    };
    assert(subcategory@.assets =~= Seq::<catalog::Asset>::empty());
    Some(subcategory)
}

fn read_subcategories(items: &Vec<Json>, strings: Option<&StringsCatalog>) -> (list: Option<
    Vec<WallpaperSubcategory>,
>)
    ensures
        match list {
            Some(list) => subcategories_in(json::trees(items@), assets::labels_in(strings)) == Some(
                catalog::subcategories(list@),
            ),
            None => subcategories_in(json::trees(items@), assets::labels_in(strings)) is None,
        },
{
    let ghost all = json::trees(items@);
    let ghost labels = assets::labels_in(strings);
    let mut list: Vec<WallpaperSubcategory> = Vec::new();
    let mut i: usize = 0;
    assert(catalog::subcategories(list@) =~= Seq::<catalog::Subcategory>::empty());
    while i < items.len()
        invariant
            i <= items.len(),
            all == json::trees(items@),
            labels == assets::labels_in(strings),
            subcategories_in(all.take(i as int), labels) == Some(catalog::subcategories(list@)),
        decreases items.len() - i,
    {
        assert(all.take(i + 1).drop_last() =~= all.take(i as int));
        assert(all.take(i + 1).last() == items@[i as int]@);
        match read_subcategory(&items[i], strings) {
            Some(subcategory) => {
                let ghost before = catalog::subcategories(list@);
                list.push(subcategory);
                assert(catalog::subcategories(list@) =~= before.push(subcategory@));
            },
            None => {
                proof {
                    lemma_subcategories_in_prefix(all, labels, i + 1);
                }
                return None;
            },
        }
        i = i + 1;
    }
    assert(all.take(i as int) =~= all);
    Some(list)
}

fn read_category(value: &Json, strings: Option<&StringsCatalog>) -> (category: Option<
    WallpaperCategory,
>)
    ensures
        match category {
            Some(category) => category_in(value@, assets::labels_in(strings)) == Some(category@),
            None => category_in(value@, assets::labels_in(strings)) is None,
        },
{
    let map = match value.as_object() {
        Some(map) => map,
        None => {
            return None;
        },
    };
    let id = match read_id(map) {
        Some(id) => id,
        None => {
            return None;
        },
    };
    let name = read_group_name(map, strings);
    let description = read_group_description(map);
    let mut subcategories: Vec<WallpaperSubcategory> = Vec::new();
    assert(catalog::subcategories(subcategories@) =~= Seq::<catalog::Subcategory>::empty());
    if let Some(inner) = json::find_member(map, "subcategories") {
        if let Some(items) = inner.as_array() {
            subcategories = match read_subcategories(items, strings) {
                Some(list) => list,
                None => {
                    return None;
                },
            };
        }
    }
    Some(WallpaperCategory { id, name, description, subcategories })
}

fn read_categories(items: &Vec<Json>, strings: Option<&StringsCatalog>) -> (list: Option<
    Vec<WallpaperCategory>,
>)
    ensures
        match list {
            Some(list) => categories_in(json::trees(items@), assets::labels_in(strings)) == Some(
                catalog::categories(list@),
            ),
            None => categories_in(json::trees(items@), assets::labels_in(strings)) is None,
        },
{
    let ghost all = json::trees(items@);
    let ghost labels = assets::labels_in(strings);
    let mut list: Vec<WallpaperCategory> = Vec::new();
    let mut i: usize = 0;
    assert(catalog::categories(list@) =~= Seq::<catalog::Category>::empty());
    while i < items.len()
        invariant
            i <= items.len(),
            all == json::trees(items@),
            labels == assets::labels_in(strings),
            categories_in(all.take(i as int), labels) == Some(catalog::categories(list@)),
        decreases items.len() - i,
    {
        assert(all.take(i + 1).drop_last() =~= all.take(i as int));
        assert(all.take(i + 1).last() == items@[i as int]@);
        match read_category(&items[i], strings) {
            Some(category) => {
                let ghost before = catalog::categories(list@);
                list.push(category);
                assert(catalog::categories(list@) =~= before.push(category@));
            },
            None => {
                proof {
                    lemma_categories_in_prefix(all, labels, i + 1);
                }
                return None;
            },
        }
        i = i + 1;
    }
    assert(all.take(i as int) =~= all);
    Some(list)
}

// ---------------------------------------------------------------------------------------------
// Where an asset belongs
// ---------------------------------------------------------------------------------------------
/// The id that the first item of the list under `key` refers to.
pub open spec fn referred_id(members: Seq<(Seq<char>, json::Tree)>, key: Seq<char>) -> Option<
    Seq<char>,
> {
    match json::member(members, key) {
        Some(json::Tree::Array(items)) => if items.len() == 0 {
            None
        } else {
            match items[0] {
                json::Tree::Object(first) => assets::text_field(
                    first,
                    seq!["id"@, "categoryID"@, "subcategoryID"@],
                ),
                json::Tree::Text(id) => Some(id),
                _ => None,
            }
        },
        _ => None,
    }
}

/// Reads the id that the first item of the list under `key` refers to.
pub fn ref_id(map: &Vec<(String, Json)>, key: &str) -> (id: Option<String>)
    ensures
        text::text_option(id) == referred_id(json::pairs(map@), key@),
{
    let value = match json::find_member(map, key) {
        Some(value) => value,
        None => {
            return None;
        },
    };
    let items = match value.as_array() {
        Some(items) => items,
        None => {
            return None;
        },
    };
    if items.len() == 0 {
        return None;
    }
    proof {
        json::lemma_view(items@[0]);
        assert(json::trees(items@)[0] == items@[0]@);
    }
    match &items[0] {
        Json::Object(first) => {
            let keys = ["id", "categoryID", "subcategoryID"];
            assert(text::words(keys@) =~= seq!["id"@, "categoryID"@, "subcategoryID"@]);
            string_field(first, &keys)
        },
        Json::Text(id) => Some(id.clone()),
        _ => None,
    }
}

/// The position of the last category with an id.
pub open spec fn last_category(categories: Seq<catalog::Category>, id: Seq<char>) -> Option<int>
    decreases categories.len(),
{
    if categories.len() == 0 {
        None
    } else if categories.last().id == id {
        Some(categories.len() - 1)
    } else {
        last_category(categories.drop_last(), id)
    }
}

/// The position of the last subcategory with an id in one category.
pub open spec fn last_in_category(
    subcategories: Seq<catalog::Subcategory>,
    id: Seq<char>,
) -> Option<int>
    decreases subcategories.len(),
{
    if subcategories.len() == 0 {
        None
    } else if subcategories.last().id == id {
        Some(subcategories.len() - 1)
    } else {
        last_in_category(subcategories.drop_last(), id)
    }
}

/// The position of the last subcategory with an id in all categories.
pub open spec fn last_subcategory(categories: Seq<catalog::Category>, id: Seq<char>) -> Option<
    (int, int),
>
    decreases categories.len(),
{
    if categories.len() == 0 {
        None
    } else {
        match last_in_category(categories.last().subcategories, id) {
            Some(at) => Some((categories.len() - 1, at)),
            None => last_subcategory(categories.drop_last(), id),
        }
    }
}

/// The position that the object of an asset asks for: the subcategory it refers to, else the first
/// one of the category it refers to.
pub open spec fn asset_target(
    members: Seq<(Seq<char>, json::Tree)>,
    categories: Seq<catalog::Category>,
) -> Option<(int, int)> {
    let by_subcategory = match referred_id(members, "subcategories"@) {
        Some(id) => last_subcategory(categories, id),
        None => None,
    };
    match by_subcategory {
        Some(target) => Some(target),
        None => match referred_id(members, "categories"@) {
            Some(id) => match last_category(categories, id) {
                Some(at) => Some((at, 0int)),
                None => None,
            },
            None => None,
        },
    }
}

/// Whether a table gives the last category for each id.
pub open spec fn indexes_categories(
    table: Map<Seq<char>, usize>,
    categories: Seq<catalog::Category>,
) -> bool {
    forall|id: Seq<char>|
        #![trigger table.contains_key(id)]
        #![trigger last_category(categories, id)]
        match last_category(categories, id) {
            Some(at) => table.contains_key(id) && table[id] == at,
            None => !table.contains_key(id),
        }
}

/// Whether a table gives the last subcategory for each id.
pub open spec fn indexes_subcategories(
    table: Map<Seq<char>, (usize, usize)>,
    categories: Seq<catalog::Category>,
) -> bool {
    forall|id: Seq<char>|
        #![trigger table.contains_key(id)]
        #![trigger last_subcategory(categories, id)]
        match last_subcategory(categories, id) {
            Some((category, at)) => table.contains_key(id) && table[id].0 == category
                && table[id].1 == at,
            None => !table.contains_key(id),
        }
}

fn index_categories(list: &Vec<WallpaperCategory>) -> (table: StringHashMap<usize>)
    ensures
        indexes_categories(table@, catalog::categories(list@)),
{
    let ghost all = catalog::categories(list@);
    let mut table: StringHashMap<usize> = StringHashMap::new();
    let mut i: usize = 0;
    while i < list.len()
        invariant
            i <= list.len(),
            all == catalog::categories(list@),
            indexes_categories(table@, all.take(i as int)),
        decreases list.len() - i,
    {
        assert(all.take(i + 1).drop_last() =~= all.take(i as int));
        assert(all.take(i + 1).last() == list@[i as int]@);
        table.insert(list[i].id.clone(), i);
        i = i + 1;
    }
    assert(all.take(i as int) =~= all);
    table
}

fn index_subcategories(list: &Vec<WallpaperCategory>) -> (table: StringHashMap<(usize, usize)>)
    ensures
        indexes_subcategories(table@, catalog::categories(list@)),
{
    let ghost all = catalog::categories(list@);
    let mut table: StringHashMap<(usize, usize)> = StringHashMap::new();
    let mut i: usize = 0;
    while i < list.len()
        invariant
            i <= list.len(),
            all == catalog::categories(list@),
            indexes_subcategories(table@, all.take(i as int)),
        decreases list.len() - i,
    {
        let ghost done = all.take(i as int);
        let ghost before = table@;
        let ghost inner = all[i as int].subcategories;
        let mut k: usize = 0;
        while k < list[i].subcategories.len()
            invariant
                i < list.len(),
                k <= list@[i as int].subcategories.len(),
                all == catalog::categories(list@),
                inner == catalog::subcategories(list@[i as int].subcategories@),
                forall|id: Seq<char>|
                    #![trigger table@.contains_key(id)]
                    #![trigger last_in_category(inner.take(k as int), id)]
                    match last_in_category(inner.take(k as int), id) {
                        Some(at) => table@.contains_key(id) && table@[id].0 == i && table@[id].1
                            == at,
                        None => table@.contains_key(id) == before.contains_key(id) && table@[id]
                            == before[id],
                    },
            decreases list@[i as int].subcategories.len() - k,
        {
            assert(inner.take(k + 1).drop_last() =~= inner.take(k as int));
            assert(inner.take(k + 1).last() == inner[k as int]);
            let ghost earlier = table@;
            table.insert(list[i].subcategories[k].id.clone(), (i, k));
            assert(inner[k as int].id == list@[i as int].subcategories@[k as int].id@);
            k = k + 1;
            assert forall|id: Seq<char>|
                #![trigger table@.contains_key(id)]
                #![trigger last_in_category(inner.take(k as int), id)]
                match last_in_category(inner.take(k as int), id) {
                    Some(at) => table@.contains_key(id) && table@[id].0 == i && table@[id].1 == at,
                    None => table@.contains_key(id) == before.contains_key(id) && table@[id]
                        == before[id],
                } by {
                assert(earlier.contains_key(id) == earlier.contains_key(id));
                assert(last_in_category(inner.take(k as int), id) == if inner[k - 1].id == id {
                    Some(k - 1)
                } else {
                    last_in_category(inner.take(k - 1), id)
                });
            }
        }
        assert(inner.take(k as int) =~= inner);
        assert(all.take(i + 1).drop_last() =~= done);
        assert(all.take(i + 1).last() == all[i as int]);
        assert(indexes_subcategories(table@, all.take(i + 1))) by {
            assert forall|id: Seq<char>|
                #![trigger table@.contains_key(id)]
                #![trigger last_subcategory(all.take(i + 1), id)]
                match last_subcategory(all.take(i + 1), id) {
                    Some((category, at)) => table@.contains_key(id) && table@[id].0 == category
                        && table@[id].1 == at,
                    None => !table@.contains_key(id),
                } by {
                assert(before.contains_key(id) == before.contains_key(id));
                assert(last_in_category(inner.take(k as int), id) == last_in_category(inner, id));
            }
        }
        i = i + 1;
    }
    assert(all.take(i as int) =~= all);
    table
}

/// The position that the object of an asset asks for, by tables of the categories and the
/// subcategories.
pub open spec fn tabled_target(
    members: Seq<(Seq<char>, json::Tree)>,
    categories: Map<Seq<char>, usize>,
    subcategories: Map<Seq<char>, (usize, usize)>,
) -> Option<(usize, usize)> {
    match referred_id(members, "subcategories"@) {
        Some(id) if subcategories.contains_key(id) => Some(subcategories[id]),
        _ => match referred_id(members, "categories"@) {
            Some(id) if categories.contains_key(id) => Some((categories[id], 0usize)),
            _ => None,
        },
    }
}

/// Finds the position that the object of an asset asks for, by tables of the categories and the
/// subcategories.
pub fn resolve_asset_target(
    asset_object: &Vec<(String, Json)>,
    category_lookup: &StringHashMap<usize>,
    subcategory_lookup: &StringHashMap<(usize, usize)>,
) -> (target: Option<(usize, usize)>)
    ensures
        target == tabled_target(
            json::pairs(asset_object@),
            category_lookup@,
            subcategory_lookup@,
        ),
{
    if let Some(subcategory_id) = ref_id(asset_object, "subcategories") {
        if let Some(target) = subcategory_lookup.get(subcategory_id.as_str()) {
            return Some(*target);
        }
    }
    if let Some(category_id) = ref_id(asset_object, "categories") {
        if let Some(category) = category_lookup.get(category_id.as_str()) {
            return Some((*category, 0));
        }
    }
    None
}

/// Tables that give the last category and the last subcategory for each id lead to the position
/// that the object of an asset asks for.
proof fn lemma_tabled_target(
    members: Seq<(Seq<char>, json::Tree)>,
    category_table: Map<Seq<char>, usize>,
    subcategory_table: Map<Seq<char>, (usize, usize)>,
    categories: Seq<catalog::Category>,
)
    requires
        indexes_categories(category_table, categories),
        indexes_subcategories(subcategory_table, categories),
    ensures
        match tabled_target(members, category_table, subcategory_table) {
            Some((category, at)) => asset_target(members, categories) == Some(
                (category as int, at as int),
            ),
            None => asset_target(members, categories) is None,
        },
{
}

// ---------------------------------------------------------------------------------------------
// The structured manifest
// ---------------------------------------------------------------------------------------------
/// The asset that a value describes.
pub open spec fn asset_item(
    tree: json::Tree,
    labels: Option<Map<Seq<char>, Seq<char>>>,
) -> Option<catalog::Asset> {
    match tree {
        json::Tree::Object(members) => assets::asset_in(members, labels),
        _ => None,
    }
}

/// The assets that the items of a list describe, where each of them describes one.
pub open spec fn assets_in(
    items: Seq<json::Tree>,
    labels: Option<Map<Seq<char>, Seq<char>>>,
) -> Option<Seq<catalog::Asset>>
    decreases items.len(),
{
    if items.len() == 0 {
        Some(Seq::empty())
    } else {
        match (assets_in(items.drop_last(), labels), asset_item(items.last(), labels)) {
            (Some(head), Some(last)) => Some(head.push(last)),
            _ => None,
        }
    }
}

proof fn lemma_one_asset_for_each_item(
    items: Seq<json::Tree>,
    labels: Option<Map<Seq<char>, Seq<char>>>,
)
    requires
        assets_in(items, labels) is Some,
    ensures
        assets_in(items, labels)->0.len() == items.len(),
    decreases items.len(),
{
    if items.len() > 0 {
        lemma_one_asset_for_each_item(items.drop_last(), labels);
    }
}

proof fn lemma_assets_in_prefix(
    items: Seq<json::Tree>,
    labels: Option<Map<Seq<char>, Seq<char>>>,
    keep: int,
)
    requires
        0 <= keep <= items.len(),
        assets_in(items.take(keep), labels) is None,
    ensures
        assets_in(items, labels) is None,
    decreases items.len(),
{
    if keep == items.len() {
        assert(items.take(keep) =~= items);
    } else {
        assert(items.drop_last().take(keep) =~= items.take(keep));
        lemma_assets_in_prefix(items.drop_last(), labels, keep);
    }
}

/// The subcategory that the object of an asset asks for, where there is such a one.
pub open spec fn asset_home(
    tree: json::Tree,
    categories: Seq<catalog::Category>,
) -> Option<(int, int)> {
    match tree {
        json::Tree::Object(members) => match asset_target(members, categories) {
            Some((category, at)) => if 0 <= category < categories.len() && 0 <= at
                < categories[category].subcategories.len() {
                Some((category, at))
            } else {
                None
            },
            None => None,
        },
        _ => None,
    }
}

/// The assets, in the manifest's order, whose home is `home`; those without a home for `None`.
pub open spec fn assets_at(
    items: Seq<json::Tree>,
    labels: Option<Map<Seq<char>, Seq<char>>>,
    categories: Seq<catalog::Category>,
    home: Option<(int, int)>,
) -> Seq<catalog::Asset>
    decreases items.len(),
{
    if items.len() == 0 {
        Seq::empty()
    } else {
        let head = assets_at(items.drop_last(), labels, categories, home);
        match asset_item(items.last(), labels) {
            Some(asset) => if asset_home(items.last(), categories) == home {
                head.push(asset)
            } else {
                head
            },
            None => head,
        }
    }
}

/// The categories with each asset in its home.
pub open spec fn with_assets_at_home(
    items: Seq<json::Tree>,
    labels: Option<Map<Seq<char>, Seq<char>>>,
    categories: Seq<catalog::Category>,
) -> Seq<catalog::Category> {
    Seq::new(
        categories.len(),
        |c: int|
            catalog::Category {
                subcategories: Seq::new(
                    categories[c].subcategories.len(),
                    |s: int|
                        catalog::Subcategory {
                            assets: categories[c].subcategories[s].assets + assets_at(
                                items,
                                labels,
                                categories,
                                Some((c, s)),
                            ),
                            ..categories[c].subcategories[s]
                        },
                ),
                ..categories[c]
            },
    )
}

/// A subcategory for everything.
pub open spec fn all_wallpapers(assets: Seq<catalog::Asset>) -> catalog::Subcategory {
    catalog::Subcategory { id: "all"@, name: "All Wallpapers"@, description: None, assets }
}

/// The categories with `strays` behind the assets of the first subcategory of the first category,
/// which are made where they are missing.
pub open spec fn with_strays(
    categories: Seq<catalog::Category>,
    strays: Seq<catalog::Asset>,
) -> Seq<catalog::Category> {
    if strays.len() == 0 {
        categories
    } else if categories.len() == 0 {
        seq![
            catalog::Category {
                id: "general"@,
                name: "General"@,
                description: None,
                subcategories: seq![all_wallpapers(strays)],
            },
        ]
    } else {
        let first = categories[0];
        let subcategories = if first.subcategories.len() == 0 {
            seq![all_wallpapers(strays)]
        } else {
            first.subcategories.update(0, catalog::with_more_assets(first.subcategories[0], strays))
        };
        categories.update(0, catalog::Category { subcategories, ..first })
    }
}

/// The catalog made of a list of categories and a list of assets. Each item has to describe one,
/// and there has to be a subcategory at the end.
pub open spec fn assembled(
    category_items: Seq<json::Tree>,
    asset_items: Seq<json::Tree>,
    labels: Option<Map<Seq<char>, Seq<char>>>,
) -> Option<Seq<catalog::Category>> {
    match (categories_in(category_items, labels), assets_in(asset_items, labels)) {
        (Some(categories), Some(_)) => {
            let full = with_strays(
                with_assets_at_home(asset_items, labels, categories),
                assets_at(asset_items, labels, categories, None),
            );
            if catalog::bare(full) {
                None
            } else {
                Some(full)
            }
        },
        _ => None,
    }
}

/// The catalog that a document with a list of categories and a list of assets describes.
pub open spec fn structured_catalog(
    tree: json::Tree,
    labels: Option<Map<Seq<char>, Seq<char>>>,
) -> Option<Seq<catalog::Category>> {
    match (json::field(tree, "categories"@), json::field(tree, "assets"@)) {
        (
            Some(json::Tree::Array(category_items)),
            Some(json::Tree::Array(asset_items)),
        ) => assembled(category_items, asset_items, labels),
        _ => None,
    }
}

proof fn lemma_one_more_item(
    items: Seq<json::Tree>,
    labels: Option<Map<Seq<char>, Seq<char>>>,
    categories: Seq<catalog::Category>,
)
    requires
        items.len() > 0,
        asset_item(items.last(), labels) is Some,
    ensures
        match asset_home(items.last(), categories) {
            Some((category, at)) => {
                &&& with_assets_at_home(items, labels, categories) == catalog::with_asset(
                    with_assets_at_home(items.drop_last(), labels, categories),
                    category,
                    at,
                    asset_item(items.last(), labels)->0,
                )
                &&& assets_at(items, labels, categories, None) == assets_at(
                    items.drop_last(),
                    labels,
                    categories,
                    None,
                )
            },
            None => {
                &&& with_assets_at_home(items, labels, categories) == with_assets_at_home(
                    items.drop_last(),
                    labels,
                    categories,
                )
                &&& assets_at(items, labels, categories, None) == assets_at(
                    items.drop_last(),
                    labels,
                    categories,
                    None,
                ).push(asset_item(items.last(), labels)->0)
            },
        },
{
    let before = with_assets_at_home(items.drop_last(), labels, categories);
    let after = with_assets_at_home(items, labels, categories);
    let asset = asset_item(items.last(), labels)->0;
    match asset_home(items.last(), categories) {
        Some((category, at)) => {
            let goal = catalog::with_asset(before, category, at, asset);
            assert forall|c: int| 0 <= c < after.len() implies after[c] == goal[c] by {
                assert forall|s: int| 0 <= s < after[c].subcategories.len() implies
                    after[c].subcategories[s] == goal[c].subcategories[s] by {
                    assert(after[c].subcategories[s].assets =~= goal[c].subcategories[s].assets);
                }
                assert(after[c].subcategories =~= goal[c].subcategories);
            }
            assert(after =~= goal);
        },
        None => {
            assert forall|c: int| 0 <= c < after.len() implies after[c] == before[c] by {
                assert(after[c].subcategories =~= before[c].subcategories);
            }
            assert(after =~= before);
        },
    }
}

proof fn lemma_no_items(
    labels: Option<Map<Seq<char>, Seq<char>>>,
    categories: Seq<catalog::Category>,
)
    ensures
        with_assets_at_home(Seq::empty(), labels, categories) == categories,
{
    let none = with_assets_at_home(Seq::empty(), labels, categories);
    assert forall|c: int| 0 <= c < categories.len() implies none[c] == categories[c] by {
        assert forall|s: int| 0 <= s < categories[c].subcategories.len() implies
            none[c].subcategories[s] == categories[c].subcategories[s] by {
            assert(none[c].subcategories[s].assets =~= categories[c].subcategories[s].assets);
        }
        assert(none[c].subcategories =~= categories[c].subcategories);
    }
    assert(none =~= categories);
}

proof fn lemma_same_shape(
    items: Seq<json::Tree>,
    labels: Option<Map<Seq<char>, Seq<char>>>,
    categories: Seq<catalog::Category>,
)
    ensures
        with_assets_at_home(items, labels, categories).len() == categories.len(),
        forall|c: int|
            0 <= c < categories.len() ==> (#[trigger] with_assets_at_home(
                items,
                labels,
                categories,
            )[c]).subcategories.len() == categories[c].subcategories.len(),
{
}

/// Puts each asset into its home, and hands back those that have none.
fn place_assets(
    list: &mut Vec<WallpaperCategory>,
    items: &Vec<Json>,
    strings: Option<&StringsCatalog>,
) -> (strays: Option<Vec<WallpaperAsset>>)
    ensures
        match strays {
            Some(strays) => {
                &&& assets_in(json::trees(items@), assets::labels_in(strings)) is Some
                &&& catalog::categories(final(list)@) == with_assets_at_home(
                    json::trees(items@),
                    assets::labels_in(strings),
                    catalog::categories(old(list)@),
                )
                &&& catalog::assets(strays@) == assets_at(
                    json::trees(items@),
                    assets::labels_in(strings),
                    catalog::categories(old(list)@),
                    None,
                )
            },
            None => assets_in(json::trees(items@), assets::labels_in(strings)) is None,
        },
{
    let category_lookup = index_categories(list);
    let subcategory_lookup = index_subcategories(list);
    let ghost shape = catalog::categories(list@);
    let ghost all = json::trees(items@);
    let ghost labels = assets::labels_in(strings);
    let mut strays: Vec<WallpaperAsset> = Vec::new();
    let mut i: usize = 0;
    assert(catalog::assets(strays@) =~= Seq::<catalog::Asset>::empty());
    proof {
        lemma_no_items(labels, shape);
        assert(all.take(0) =~= Seq::<json::Tree>::empty());
    }
    while i < items.len()
        invariant
            i <= items.len(),
            all == json::trees(items@),
            labels == assets::labels_in(strings),
            indexes_categories(category_lookup@, shape),
            indexes_subcategories(subcategory_lookup@, shape),
            assets_in(all.take(i as int), labels) is Some,
            catalog::categories(list@) == with_assets_at_home(all.take(i as int), labels, shape),
            catalog::assets(strays@) == assets_at(all.take(i as int), labels, shape, None),
        decreases items.len() - i,
    {
        let ghost now = all.take(i + 1);
        assert(now.drop_last() =~= all.take(i as int));
        assert(now.last() == items@[i as int]@);
        let map = match items[i].as_object() {
            Some(map) => map,
            None => {
                proof {
                    lemma_assets_in_prefix(all, labels, i + 1);
                }
                return None;
            },
        };
        let asset = match extract_asset(map, strings) {
            Some(asset) => asset,
            None => {
                proof {
                    lemma_assets_in_prefix(all, labels, i + 1);
                }
                return None;
            },
        };
        proof {
            lemma_one_more_item(now, labels, shape);
            lemma_tabled_target(
                json::pairs(map@),
                category_lookup@,
                subcategory_lookup@,
                shape,
            );
            lemma_same_shape(all.take(i as int), labels, shape);
            assert(catalog::categories(list@).len() == list@.len());
        }
        let ghost stray_before = catalog::assets(strays@);
        match resolve_asset_target(map, &category_lookup, &subcategory_lookup) {
            Some((category, at)) => {
                if category < list.len() {
                    assert(catalog::categories(list@)[category as int].subcategories.len()
                        == list@[category as int].subcategories@.len());
                }
                if category < list.len() && at < list[category].subcategories.len() {
                    catalog::add_asset(list, category, at, asset);
                } else {
                    strays.push(asset);
                    assert(catalog::assets(strays@) =~= stray_before.push(asset@));
                }
            },
            None => {
                strays.push(asset);
                assert(catalog::assets(strays@) =~= stray_before.push(asset@));
            },
        }
        i = i + 1;
    }
    assert(all.take(i as int) =~= all);
    Some(strays)
}

fn all_wallpapers_of(assets: Vec<WallpaperAsset>) -> (subcategory: WallpaperSubcategory)
    ensures
        subcategory@ == all_wallpapers(catalog::assets(assets@)),
{
    WallpaperSubcategory {
        id: "all".to_owned(),
        name: "All Wallpapers".to_owned(),
        description: None,
        assets,
    }
}

/// Puts the assets without a home into the first subcategory of the first category.
fn add_strays(list: &mut Vec<WallpaperCategory>, strays: Vec<WallpaperAsset>)
    ensures
        catalog::categories(final(list)@) == with_strays(
            catalog::categories(old(list)@),
            catalog::assets(strays@),
        ),
{
    let ghost before = catalog::categories(list@);
    let ghost more = catalog::assets(strays@);
    if strays.len() == 0 {
        return;
    }
    if list.len() == 0 {
        let mut subcategories: Vec<WallpaperSubcategory> = Vec::new();
        subcategories.push(all_wallpapers_of(strays));
        assert(catalog::subcategories(subcategories@) =~= seq![all_wallpapers(more)]);
        list.push(
            WallpaperCategory {
                id: "general".to_owned(),
                name: "General".to_owned(),
                description: None,
                subcategories,
            },
        );
        assert(catalog::categories(list@) =~= with_strays(before, more));
        return;
    }
    let ghost first = list@[0].subcategories@;
    assert(before[0].subcategories.len() == first.len());
    if list[0].subcategories.len() == 0 {
        list[0].subcategories.push(all_wallpapers_of(strays));
        assert(catalog::subcategories(list@[0].subcategories@) =~= seq![all_wallpapers(more)]);
    } else {
        let mut rest = strays;
        list[0].subcategories[0].assets.append(&mut rest);
        assert(catalog::assets(list@[0].subcategories@[0].assets@) =~= catalog::assets(
            first[0].assets@,
        ) + more);
        assert(catalog::subcategories(list@[0].subcategories@) =~= before[0].subcategories.update(
            0,
            catalog::with_more_assets(before[0].subcategories[0], more),
        ));
    }
    assert(catalog::categories(list@) =~= with_strays(before, more));
}

/// Reads a document with a list of categories and a list of assets.
pub fn parse_structured_catalog(json: &Json, strings: Option<&StringsCatalog>) -> (found: Option<
    WallpaperCatalog,
>)
    ensures
        match found {
            Some(found) => structured_catalog(json@, assets::labels_in(strings)) == Some(found@)
                && catalog::countable(found@),
            None => structured_catalog(json@, assets::labels_in(strings)) is None,
        },
{
    let categories_json = match json.get("categories") {
        Some(value) => match value.as_array() {
            Some(items) => items,
            None => {
                return None;
            },
        },
        None => {
            return None;
        },
    };
    let assets_json = match json.get("assets") {
        Some(value) => match value.as_array() {
            Some(items) => items,
            None => {
                return None;
            },
        },
        None => {
            return None;
        },
    };
    let mut list = match read_categories(categories_json, strings) {
        Some(list) => list,
        None => {
            return None;
        },
    };
    let strays = match place_assets(&mut list, assets_json, strings) {
        Some(strays) => strays,
        None => {
            return None;
        },
    };
    add_strays(&mut list, strays);
    let ghost full = catalog::categories(list@);
    let ghost category_items = json::trees(categories_json@);
    let ghost asset_items = json::trees(assets_json@);
    assert(asset_items.len() == assets_json.len());
    let mut i: usize = 0;
    while i < list.len()
        invariant
            i <= list.len(),
            full == catalog::categories(list@),
            asset_items.len() <= usize::MAX,
            structured_catalog(json@, assets::labels_in(strings)) == assembled(
                category_items,
                asset_items,
                assets::labels_in(strings),
            ),
            forall|c: int| 0 <= c < i ==> (#[trigger] full[c]).subcategories.len() == 0,
            structured_catalog(json@, assets::labels_in(strings)) == if catalog::bare(full) {
                None::<Seq<catalog::Category>>
            } else {
                Some(full)
            },
        decreases list.len() - i,
    {
        assert(full[i as int].subcategories.len() == list@[i as int].subcategories@.len());
        if list[i].subcategories.len() > 0 {
            let found = WallpaperCatalog { categories: list };
            proof {
                law_structured_catalog_holds_each_asset(
                    category_items,
                    asset_items,
                    assets::labels_in(strings),
                );
                lemma_one_asset_for_each_item(asset_items, assets::labels_in(strings));
                assets_in(asset_items, assets::labels_in(strings))->0.to_multiset_ensures();
                catalog::lemma_countable(found);
            }
            return Some(found);
        }
        i = i + 1;
    }
    None
}

// ---------------------------------------------------------------------------------------------
// No asset is lost
// ---------------------------------------------------------------------------------------------
proof fn lemma_fresh_subcategories_are_empty(
    items: Seq<json::Tree>,
    labels: Option<Map<Seq<char>, Seq<char>>>,
)
    requires
        subcategories_in(items, labels) is Some,
    ensures
        catalog::held_in(subcategories_in(items, labels)->0) == Multiset::<catalog::Asset>::empty(),
    decreases items.len(),
{
    if items.len() > 0 {
        lemma_fresh_subcategories_are_empty(items.drop_last(), labels);
        let list = subcategories_in(items, labels)->0;
        assert(list.drop_last() =~= subcategories_in(items.drop_last(), labels)->0);
        list.last().assets.to_multiset_ensures();
        assert(list.last().assets.to_multiset() =~= Multiset::<catalog::Asset>::empty());
        assert(catalog::held_in(list) =~= Multiset::<catalog::Asset>::empty());
    }
}

proof fn lemma_fresh_categories_are_empty(
    items: Seq<json::Tree>,
    labels: Option<Map<Seq<char>, Seq<char>>>,
)
    requires
        categories_in(items, labels) is Some,
    ensures
        catalog::held(categories_in(items, labels)->0) == Multiset::<catalog::Asset>::empty(),
    decreases items.len(),
{
    if items.len() > 0 {
        lemma_fresh_categories_are_empty(items.drop_last(), labels);
        let list = categories_in(items, labels)->0;
        assert(list.drop_last() =~= categories_in(items.drop_last(), labels)->0);
        let members = items.last()->Object_0;
        match json::member(members, "subcategories"@) {
            Some(json::Tree::Array(inner)) => {
                lemma_fresh_subcategories_are_empty(inner, labels);
            },
            _ => {},
        }
        assert(catalog::held(list) =~= Multiset::<catalog::Asset>::empty());
    }
}

proof fn lemma_placing_keeps_assets(
    items: Seq<json::Tree>,
    labels: Option<Map<Seq<char>, Seq<char>>>,
    categories: Seq<catalog::Category>,
)
    requires
        assets_in(items, labels) is Some,
        catalog::held(categories) == Multiset::<catalog::Asset>::empty(),
    ensures
        catalog::held(with_assets_at_home(items, labels, categories)).add(
            assets_at(items, labels, categories, None).to_multiset(),
        ) == assets_in(items, labels)->0.to_multiset(),
    decreases items.len(),
{
    let placed = with_assets_at_home(items, labels, categories);
    let strays = assets_at(items, labels, categories, None);
    let read = assets_in(items, labels)->0;
    strays.to_multiset_ensures();
    read.to_multiset_ensures();
    if items.len() == 0 {
        assert(items =~= Seq::<json::Tree>::empty());
        lemma_no_items(labels, categories);
        assert(catalog::held(placed).add(strays.to_multiset()) =~= read.to_multiset());
    } else {
        let rest = items.drop_last();
        let asset = asset_item(items.last(), labels)->0;
        lemma_placing_keeps_assets(rest, labels, categories);
        lemma_one_more_item(items, labels, categories);
        let placed_before = with_assets_at_home(rest, labels, categories);
        let strays_before = assets_at(rest, labels, categories, None);
        let read_before = assets_in(rest, labels)->0;
        strays_before.to_multiset_ensures();
        read_before.to_multiset_ensures();
        assert(read == read_before.push(asset));
        match asset_home(items.last(), categories) {
            Some((category, at)) => {
                lemma_same_shape(rest, labels, categories);
                catalog::lemma_held_with_more(placed_before, category, at, seq![asset]);
                Seq::<catalog::Asset>::empty().to_multiset_ensures();
                assert(seq![asset] =~= Seq::<catalog::Asset>::empty().push(asset));
                assert(seq![asset].to_multiset() =~= Multiset::singleton(asset));
                assert(catalog::held(placed).add(strays.to_multiset()) =~= read.to_multiset());
            },
            None => {
                assert(catalog::held(placed).add(strays.to_multiset()) =~= read.to_multiset());
            },
        }
    }
}

proof fn lemma_strays_are_kept(categories: Seq<catalog::Category>, strays: Seq<catalog::Asset>)
    ensures
        catalog::held(with_strays(categories, strays)) == catalog::held(categories).add(
            strays.to_multiset(),
        ),
{
    let after = with_strays(categories, strays);
    let none = Multiset::<catalog::Asset>::empty();
    strays.to_multiset_ensures();
    if strays.len() == 0 {
        assert(strays.to_multiset() =~= none);
        assert(catalog::held(after) =~= catalog::held(categories).add(strays.to_multiset()));
    } else {
        let fresh = seq![all_wallpapers(strays)];
        assert(catalog::held_in(fresh.drop_last()) == none);
        assert(catalog::held_in(fresh) =~= strays.to_multiset());
        if categories.len() == 0 {
            assert(catalog::held(after.drop_last()) == none);
            assert(catalog::held(after) =~= catalog::held(categories).add(strays.to_multiset()));
        } else if categories[0].subcategories.len() == 0 {
            assert(catalog::held_in(fresh) =~= catalog::held_in(categories[0].subcategories).add(
                strays.to_multiset(),
            ));
            catalog::lemma_held_after_change(categories, 0, after[0], strays);
        } else {
            catalog::lemma_held_with_more(categories, 0, 0, strays);
        }
    }
}

/// A catalog made of a structured manifest holds each asset of the manifest, each as often as the
/// manifest lists it, and no other.
pub proof fn law_structured_catalog_holds_each_asset(
    category_items: Seq<json::Tree>,
    asset_items: Seq<json::Tree>,
    labels: Option<Map<Seq<char>, Seq<char>>>,
)
    requires
        assembled(category_items, asset_items, labels) is Some,
    ensures
        catalog::held(assembled(category_items, asset_items, labels)->0) == assets_in(
            asset_items,
            labels,
        )->0.to_multiset(),
{
    let categories = categories_in(category_items, labels)->0;
    lemma_fresh_categories_are_empty(category_items, labels);
    lemma_placing_keeps_assets(asset_items, labels, categories);
    lemma_strays_are_kept(
        with_assets_at_home(asset_items, labels, categories),
        assets_at(asset_items, labels, categories, None),
    );
}

} // verus!
