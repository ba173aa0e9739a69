//! Where a structured manifest puts its assets, and what it makes of its categories.

use vstd::prelude::*;

use crate::catalog;
use crate::json;
use crate::manifest::assets;
use crate::manifest::structured;

verus! {

// ---------------------------------------------------------------------------------------------
// The categories
// ---------------------------------------------------------------------------------------------
/// Whether an object has an id, a name and a description: the id it says, the name that its label
/// or the best of its names gives, and the best of its descriptions.
pub open spec fn introduced(
    members: Seq<(Seq<char>, json::Tree)>,
    labels: Option<Map<Seq<char>, Seq<char>>>,
    id: Seq<char>,
    name: Seq<char>,
    description: Option<Seq<char>>,
) -> bool {
    &&& assets::says(members, "id"@, id)
    &&& assets::named(
        members,
        labels,
        seq!["localizedName"@, "name"@, "title"@, "displayName"@],
        name,
    )
    &&& assets::first_said(
        members,
        seq!["localizedDescription"@, "localizedDescriptionKey"@, "description"@],
        description,
    )
}

/// Whether a value is an object that says an id.
pub open spec fn has_id(tree: json::Tree) -> bool {
    tree is Object && !assets::silent(tree->Object_0, "id"@)
}

/// The items of the list under a key, where there is a list.
pub open spec fn listed(members: Seq<(Seq<char>, json::Tree)>, key: Seq<char>) -> Seq<json::Tree> {
    match json::member(members, key) {
        Some(json::Tree::Array(items)) => items,
        _ => Seq::empty(),
    }
}

proof fn lemma_id(members: Seq<(Seq<char>, json::Tree)>)
    ensures
        match assets::text_field(members, seq!["id"@]) {
            Some(id) => assets::says(members, "id"@, id),
            None => assets::silent(members, "id"@),
        },
{
    let keys = seq!["id"@];
    assert(keys[0] == "id"@);
    assets::law_first_key_counts(members, keys);
    if assets::text_field(members, keys) is Some {
        let content = assets::text_field(members, keys)->0;
        let i = choose|i: int|
            0 <= i < keys.len() && assets::says(members, #[trigger] keys[i], content);
        assert(assets::says(members, "id"@, content));
    } else {
        assert(assets::silent(members, keys[0]));
    }
}

proof fn lemma_introduced(
    members: Seq<(Seq<char>, json::Tree)>,
    labels: Option<Map<Seq<char>, Seq<char>>>,
    id: Seq<char>,
)
    requires
        assets::text_field(members, seq!["id"@]) == Some(id),
    ensures
        introduced(
            members,
            labels,
            id,
            structured::group_name(members, labels),
            assets::text_field(members, structured::description_keys()),
        ),
{
    lemma_id(members);
    let names = seq!["localizedName"@, "name"@, "title"@, "displayName"@];
    assert(names =~= structured::name_keys());
    assets::lemma_named(members, labels, names);
    let descriptions = seq!["localizedDescription"@, "localizedDescriptionKey"@, "description"@];
    assert(descriptions =~= structured::description_keys());
    assets::law_first_key_counts(members, descriptions);
}

/// A list of objects is a list of subcategories exactly where each of them says an id. Then there
/// is one for each, in their order, with the id, the name and the description of its object, and no
/// asset.
pub proof fn law_subcategories_are_read(
    items: Seq<json::Tree>,
    labels: Option<Map<Seq<char>, Seq<char>>>,
)
    ensures
        structured::subcategories_in(items, labels) is Some == (forall|s: int|
            0 <= s < items.len() ==> has_id(#[trigger] items[s])),
        structured::subcategories_in(items, labels) matches Some(list) ==> {
            &&& list.len() == items.len()
            &&& forall|s: int|
                0 <= s < list.len() ==> introduced(
                    items[s]->Object_0,
                    labels,
                    (#[trigger] list[s]).id,
                    list[s].name,
                    list[s].description,
                ) && list[s].assets.len() == 0
        },
    decreases items.len(),
{
    if items.len() > 0 {
        let front = items.drop_last();
        let last = items.len() - 1;
        law_subcategories_are_read(front, labels);
        if items.last() is Object {
            lemma_id(items.last()->Object_0);
            if has_id(items.last()) {
                let id = assets::text_field(items.last()->Object_0, seq!["id"@]);
                assert(id is Some) by {
                    if id is None {
                        assert(assets::silent(items.last()->Object_0, "id"@));
                    }
                }
                lemma_introduced(items.last()->Object_0, labels, id->0);
            }
        }
        assert(structured::subcategory_in(items.last(), labels) is Some == has_id(items[last]));
        if forall|s: int| 0 <= s < items.len() ==> has_id(#[trigger] items[s]) {
            assert forall|s: int| 0 <= s < front.len() implies has_id(#[trigger] front[s]) by {
                assert(front[s] == items[s]);
            }
        } else {
            let s = choose|s: int| 0 <= s < items.len() && !has_id(#[trigger] items[s]);
            if s < last {
                assert(front[s] == items[s]);
            }
        }
        if structured::subcategories_in(items, labels) is Some {
            let list = structured::subcategories_in(items, labels)->0;
            let most = structured::subcategories_in(front, labels)->0;
            assert forall|s: int| 0 <= s < list.len() implies introduced(
                items[s]->Object_0,
                labels,
                (#[trigger] list[s]).id,
                list[s].name,
                list[s].description,
            ) && list[s].assets.len() == 0 by {
                if s < last {
                    assert(list[s] == most[s]);
                    assert(front[s] == items[s]);
                }
            }
        }
    }
}

/// Whether a value is an object that says an id and whose subcategories, if it lists any, all say
/// one.
pub open spec fn is_category(tree: json::Tree) -> bool {
    &&& has_id(tree)
    &&& forall|s: int|
        0 <= s < listed(tree->Object_0, "subcategories"@).len() ==> has_id(
            #[trigger] listed(tree->Object_0, "subcategories"@)[s],
        )
}

/// Whether a category is the one that an object describes, with nothing in it yet.
pub open spec fn describes_category(
    tree: json::Tree,
    labels: Option<Map<Seq<char>, Seq<char>>>,
    it: catalog::Category,
) -> bool {
    let inner = listed(tree->Object_0, "subcategories"@);
    &&& introduced(tree->Object_0, labels, it.id, it.name, it.description)
    &&& it.subcategories.len() == inner.len()
    &&& forall|s: int|
        0 <= s < inner.len() ==> introduced(
            inner[s]->Object_0,
            labels,
            (#[trigger] it.subcategories[s]).id,
            it.subcategories[s].name,
            it.subcategories[s].description,
        ) && it.subcategories[s].assets.len() == 0
}

/// A list of values is a list of categories exactly where each is an object that says an id and so
/// do all the subcategories that it lists. Then there is one for each, in their order, with the id,
/// the name, the description and the subcategories of its object.
pub proof fn law_categories_are_read(
    items: Seq<json::Tree>,
    labels: Option<Map<Seq<char>, Seq<char>>>,
)
    ensures
        structured::categories_in(items, labels) is Some == (forall|c: int|
            0 <= c < items.len() ==> is_category(#[trigger] items[c])),
        structured::categories_in(items, labels) matches Some(list) ==> {
            &&& list.len() == items.len()
            &&& forall|c: int|
                0 <= c < list.len() ==> describes_category(items[c], labels, #[trigger] list[c])
        },
    decreases items.len(),
{
    if items.len() > 0 {
        let front = items.drop_last();
        let last = items.len() - 1;
        law_categories_are_read(front, labels);
        let tree = items.last();
        if tree is Object {
            lemma_id(tree->Object_0);
            law_subcategories_are_read(listed(tree->Object_0, "subcategories"@), labels);
            let id = assets::text_field(tree->Object_0, seq!["id"@]);
            if has_id(tree) {
                assert(id is Some) by {
                    if id is None {
                        assert(assets::silent(tree->Object_0, "id"@));
                    }
                }
                lemma_introduced(tree->Object_0, labels, id->0);
            }
            assert(id is Some == has_id(tree));
        }
        let read = structured::category_in(tree, labels);
        assert(read is Some == is_category(items[last]));
        if read is Some {
            assert(describes_category(tree, labels, read->0));
        }
        if forall|c: int| 0 <= c < items.len() ==> is_category(#[trigger] items[c]) {
            assert forall|c: int| 0 <= c < front.len() implies is_category(#[trigger] front[c]) by {
                assert(front[c] == items[c]);
            }
        } else {
            let c = choose|c: int| 0 <= c < items.len() && !is_category(#[trigger] items[c]);
            if c < last {
                assert(front[c] == items[c]);
            }
        }
        if structured::categories_in(items, labels) is Some {
            let list = structured::categories_in(items, labels)->0;
            let most = structured::categories_in(front, labels)->0;
            assert forall|c: int| 0 <= c < list.len() implies describes_category(
                items[c],
                labels,
                #[trigger] list[c],
            ) by {
                if c < last {
                    assert(list[c] == most[c]);
                    assert(front[c] == items[c]);
                }
            }
        }
    }
}

// ---------------------------------------------------------------------------------------------
// References
// ---------------------------------------------------------------------------------------------
/// Whether the first item of the list under a key refers to an id: it is the id itself, or an
/// object that says it.
pub open spec fn refers(
    members: Seq<(Seq<char>, json::Tree)>,
    key: Seq<char>,
    id: Seq<char>,
) -> bool {
    let items = listed(members, key);
    items.len() > 0 && match items[0] {
        json::Tree::Text(content) => content == id,
        json::Tree::Object(first) => assets::first_said(
            first,
            seq!["id"@, "categoryID"@, "subcategoryID"@],
            Some(id),
        ),
        _ => false,
    }
}

/// A reference is the id that the first item of a list refers to; there is none where that item
/// refers to nothing.
pub proof fn law_first_references_count(
    members: Seq<(Seq<char>, json::Tree)>,
    key: Seq<char>,
    id: Seq<char>,
)
    ensures
        (structured::referred_id(members, key) == Some(id)) == refers(members, key, id),
{
    let items = listed(members, key);
    if items.len() > 0 && items[0] is Object {
        let keys = seq!["id"@, "categoryID"@, "subcategoryID"@];
        let first = items[0]->Object_0;
        assets::law_first_key_counts(first, keys);
        if assets::first_said(first, keys, Some(id)) {
            assets::lemma_first_said_is_the_field(first, keys, Some(id));
        }
    }
}

/// Whether a place is one of some categories.
pub open spec fn is_place(categories: Seq<catalog::Category>, c: int, s: int) -> bool {
    0 <= c < categories.len() && 0 <= s < categories[c].subcategories.len()
}

/// Whether a subcategory is the last of all with its id.
pub open spec fn is_last_subcategory(
    categories: Seq<catalog::Category>,
    id: Seq<char>,
    c: int,
    s: int,
) -> bool {
    &&& is_place(categories, c, s)
    &&& categories[c].subcategories[s].id == id
    &&& forall|d: int, t: int|
        #![trigger categories[d].subcategories[t]]
        is_place(categories, d, t) && categories[d].subcategories[t].id == id ==> d < c || (d == c
            && t <= s)
}

/// Whether a category is the last with its id.
pub open spec fn is_last_category(
    categories: Seq<catalog::Category>,
    id: Seq<char>,
    c: int,
) -> bool {
    &&& 0 <= c < categories.len()
    &&& categories[c].id == id
    &&& forall|d: int| c < d < categories.len() ==> (#[trigger] categories[d]).id != id
}

proof fn lemma_last_in_category(list: Seq<catalog::Subcategory>, id: Seq<char>)
    ensures
        match structured::last_in_category(list, id) {
            Some(s) => {
                &&& 0 <= s < list.len()
                &&& list[s].id == id
                &&& forall|t: int| s < t < list.len() ==> (#[trigger] list[t]).id != id
            },
            None => forall|t: int| 0 <= t < list.len() ==> (#[trigger] list[t]).id != id,
        },
    decreases list.len(),
{
    if list.len() > 0 {
        let front = list.drop_last();
        lemma_last_in_category(front, id);
        assert(forall|t: int| 0 <= t < front.len() ==> #[trigger] list[t] == front[t]);
    }
}

proof fn lemma_last_subcategory(categories: Seq<catalog::Category>, id: Seq<char>)
    ensures
        match structured::last_subcategory(categories, id) {
            Some((c, s)) => is_last_subcategory(categories, id, c, s),
            None => forall|c: int, s: int|
                #![trigger categories[c].subcategories[s]]
                is_place(categories, c, s) ==> categories[c].subcategories[s].id != id,
        },
    decreases categories.len(),
{
    if categories.len() > 0 {
        let front = categories.drop_last();
        let last = categories.len() - 1;
        lemma_last_subcategory(front, id);
        lemma_last_in_category(categories[last].subcategories, id);
        assert(forall|c: int| 0 <= c < front.len() ==> #[trigger] categories[c] == front[c]);
        match structured::last_subcategory(categories, id) {
            Some((c, s)) => {
                assert forall|d: int, t: int|
                    #![trigger categories[d].subcategories[t]]
                    is_place(categories, d, t) && categories[d].subcategories[t].id == id implies d
                    < c || (d == c && t <= s) by {
                    if d < last {
                        assert(front[d].subcategories[t].id == id);
                        assert(is_place(front, d, t));
                    }
                }
            },
            None => {
                assert forall|c: int, s: int|
                    #![trigger categories[c].subcategories[s]]
                    is_place(categories, c, s) implies categories[c].subcategories[s].id != id by {
                    if c < last {
                        assert(is_place(front, c, s));
                        assert(front[c].subcategories[s].id != id);
                    }
                }
            },
        }
    }
}

proof fn lemma_last_category(categories: Seq<catalog::Category>, id: Seq<char>)
    ensures
        match structured::last_category(categories, id) {
            Some(c) => is_last_category(categories, id, c),
            None => forall|d: int| 0 <= d < categories.len() ==> (#[trigger] categories[d]).id != id,
        },
    decreases categories.len(),
{
    if categories.len() > 0 {
        let front = categories.drop_last();
        lemma_last_category(front, id);
        assert(forall|d: int| 0 <= d < front.len() ==> #[trigger] categories[d] == front[d]);
    }
}

// ---------------------------------------------------------------------------------------------
// Homes
// ---------------------------------------------------------------------------------------------
/// Whether an asset refers to a subcategory: to the last with its id, where there are more.
pub open spec fn refers_to_subcategory(
    tree: json::Tree,
    categories: Seq<catalog::Category>,
    c: int,
    s: int,
) -> bool {
    &&& is_place(categories, c, s)
    &&& refers(tree->Object_0, "subcategories"@, categories[c].subcategories[s].id)
    &&& is_last_subcategory(categories, categories[c].subcategories[s].id, c, s)
}

/// Whether an asset refers to a category: to the last with its id, where there are more.
pub open spec fn refers_to_category(
    tree: json::Tree,
    categories: Seq<catalog::Category>,
    c: int,
) -> bool {
    &&& 0 <= c < categories.len()
    &&& refers(tree->Object_0, "categories"@, categories[c].id)
    &&& is_last_category(categories, categories[c].id, c)
}

/// Whether an asset belongs to a place: to the subcategory that it refers to, whatever category it
/// refers to; and, only where it refers to no subcategory, to the first one of the category that it
/// refers to.
pub open spec fn belongs_at(
    tree: json::Tree,
    categories: Seq<catalog::Category>,
    c: int,
    s: int,
) -> bool {
    ||| refers_to_subcategory(tree, categories, c, s)
    ||| {
        &&& forall|d: int, t: int| !#[trigger] refers_to_subcategory(tree, categories, d, t)
        &&& refers_to_category(tree, categories, c)
        &&& s == 0
        &&& is_place(categories, c, 0)
    }
}

/// Whether an asset belongs nowhere.
pub open spec fn is_stray(tree: json::Tree, categories: Seq<catalog::Category>) -> bool {
    forall|c: int, s: int| !#[trigger] belongs_at(tree, categories, c, s)
}

/// An asset belongs to one place at most, and that is its home.
pub proof fn law_references_lead_home(
    tree: json::Tree,
    categories: Seq<catalog::Category>,
    c: int,
    s: int,
)
    requires
        tree is Object,
    ensures
        (structured::asset_home(tree, categories) == Some((c, s))) == belongs_at(
            tree,
            categories,
            c,
            s,
        ),
        structured::asset_home(tree, categories) is None == is_stray(tree, categories),
{
    lemma_home(tree, categories);
    let home = structured::asset_home(tree, categories);
    if home is Some {
        let (d, t) = home->0;
        assert(belongs_at(tree, categories, d, t));
    } else {
        assert forall|d: int, t: int| !#[trigger] belongs_at(tree, categories, d, t) by {
            assert(home != Some((d, t)));
        }
    }
}

proof fn lemma_home(tree: json::Tree, categories: Seq<catalog::Category>)
    requires
        tree is Object,
    ensures
        forall|c: int, s: int|
            (structured::asset_home(tree, categories) == Some((c, s))) == #[trigger] belongs_at(
                tree,
                categories,
                c,
                s,
            ),
{
    let members = tree->Object_0;
    let home = structured::asset_home(tree, categories);
    let target = structured::asset_target(members, categories);
    let inner = structured::referred_id(members, "subcategories"@);
    let outer = structured::referred_id(members, "categories"@);
    let by_inner = match inner {
        Some(id) => structured::last_subcategory(categories, id),
        None => None,
    };
    if inner is Some {
        lemma_last_subcategory(categories, inner->0);
    }
    if outer is Some {
        lemma_last_category(categories, outer->0);
    }
    assert forall|c: int, s: int| #[trigger]
        refers_to_subcategory(tree, categories, c, s) == (by_inner == Some((c, s))) by {
        if is_place(categories, c, s) {
            let id = categories[c].subcategories[s].id;
            law_first_references_count(members, "subcategories"@, id);
            if inner == Some(id) && by_inner is Some {
                let (d, t) = by_inner->0;
                assert(categories[d].subcategories[t].id == id);
            }
        }
        if by_inner is Some {
            law_first_references_count(members, "subcategories"@, inner->0);
        }
    }
    assert forall|c: int| #[trigger]
        refers_to_category(tree, categories, c) == (outer is Some && structured::last_category(
            categories,
            outer->0,
        ) == Some(c)) by {
        if 0 <= c < categories.len() {
            law_first_references_count(members, "categories"@, categories[c].id);
        }
        if outer is Some {
            law_first_references_count(members, "categories"@, outer->0);
        }
    }
    assert forall|c: int, s: int| (home == Some((c, s))) == #[trigger] belongs_at(
        tree,
        categories,
        c,
        s,
    ) by {
        if by_inner is Some {
            let (d, t) = by_inner->0;
            assert(refers_to_subcategory(tree, categories, d, t));
            assert(target == Some((d, t)));
            assert(home == Some((d, t)));
            assert(refers_to_subcategory(tree, categories, c, s) == ((d, t) == (c, s)));
        } else {
            assert forall|d: int, t: int| !#[trigger] refers_to_subcategory(
                tree,
                categories,
                d,
                t,
            ) by {}
            assert(refers_to_category(tree, categories, c) == (target == Some((c, 0int))));
        }
    }
}

// ---------------------------------------------------------------------------------------------
// The catalog
// ---------------------------------------------------------------------------------------------
/// The assets that some values describe.
pub open spec fn assets_of(
    items: Seq<json::Tree>,
    labels: Option<Map<Seq<char>, Seq<char>>>,
) -> Seq<catalog::Asset> {
    Seq::new(items.len(), |i: int| assets::asset_in(items[i]->Object_0, labels)->0)
}

/// Those of some values that belong to a place, in their order.
pub open spec fn items_at(
    items: Seq<json::Tree>,
    categories: Seq<catalog::Category>,
    c: int,
    s: int,
) -> Seq<json::Tree> {
    items.filter(|item: json::Tree| belongs_at(item, categories, c, s))
}

/// Those of some values that belong nowhere, in their order.
pub open spec fn stray_items(
    items: Seq<json::Tree>,
    categories: Seq<catalog::Category>,
) -> Seq<json::Tree> {
    items.filter(|item: json::Tree| is_stray(item, categories))
}

proof fn lemma_assets_at(
    items: Seq<json::Tree>,
    labels: Option<Map<Seq<char>, Seq<char>>>,
    categories: Seq<catalog::Category>,
    c: int,
    s: int,
)
    requires
        structured::assets_in(items, labels) is Some,
    ensures
        structured::assets_at(items, labels, categories, Some((c, s))) == assets_of(
            items_at(items, categories, c, s),
            labels,
        ),
        structured::assets_at(items, labels, categories, None) == assets_of(
            stray_items(items, categories),
            labels,
        ),
    decreases items.len(),
{
    reveal(Seq::filter);
    let here = assets_of(items_at(items, categories, c, s), labels);
    let nowhere = assets_of(stray_items(items, categories), labels);
    if items.len() > 0 {
        let front = items.drop_last();
        let last = items.last();
        lemma_assets_at(front, labels, categories, c, s);
        law_references_lead_home(last, categories, c, s);
        assert(here =~= if belongs_at(last, categories, c, s) {
            assets_of(items_at(front, categories, c, s), labels).push(
                assets::asset_in(last->Object_0, labels)->0,
            )
        } else {
            assets_of(items_at(front, categories, c, s), labels)
        });
        assert(nowhere =~= if is_stray(last, categories) {
            assets_of(stray_items(front, categories), labels).push(
                assets::asset_in(last->Object_0, labels)->0,
            )
        } else {
            assets_of(stray_items(front, categories), labels)
        });
    }
    assert(structured::assets_at(items, labels, categories, Some((c, s))) =~= here);
    assert(structured::assets_at(items, labels, categories, None) =~= nowhere);
}

proof fn lemma_all_are_assets(
    items: Seq<json::Tree>,
    labels: Option<Map<Seq<char>, Seq<char>>>,
)
    ensures
        structured::assets_in(items, labels) is Some == (forall|i: int|
            0 <= i < items.len() ==> is_asset(#[trigger] items[i], labels)),
    decreases items.len(),
{
    if items.len() > 0 {
        let front = items.drop_last();
        let last = items.len() - 1;
        lemma_all_are_assets(front, labels);
        if forall|i: int| 0 <= i < items.len() ==> is_asset(#[trigger] items[i], labels) {
            assert forall|i: int| 0 <= i < front.len() implies is_asset(
                #[trigger] front[i],
                labels,
            ) by {
                assert(front[i] == items[i]);
            }
            assert(is_asset(items[last], labels));
        } else {
            let i = choose|i: int| 0 <= i < items.len() && !is_asset(#[trigger] items[i], labels);
            if i < last {
                assert(front[i] == items[i]);
            }
        }
    }
}

/// Whether a value is an object that describes an asset.
pub open spec fn is_asset(tree: json::Tree, labels: Option<Map<Seq<char>, Seq<char>>>) -> bool {
    tree is Object && assets::asset_in(tree->Object_0, labels) is Some
}

/// The assets of a subcategory behind those of which it is known where they belong.
pub open spec fn home_of_strays(c: int, s: int, strays: Seq<catalog::Asset>) -> Seq<catalog::Asset> {
    if c == 0 && s == 0 {
        strays
    } else {
        Seq::empty()
    }
}

/// Whether a catalog is made of some categories by putting each asset where it belongs, those of
/// one place in the order of the manifest. Assets that belong nowhere stand behind the others in
/// the first subcategory of the first category; where there is none, it is made for them.
pub open spec fn puts_each_where_it_belongs(
    full: Seq<catalog::Category>,
    categories: Seq<catalog::Category>,
    items: Seq<json::Tree>,
    labels: Option<Map<Seq<char>, Seq<char>>>,
) -> bool {
    let strays = assets_of(stray_items(items, categories), labels);
    let all = catalog::Subcategory {
        id: "all"@,
        name: "All Wallpapers"@,
        description: None,
        assets: strays,
    };
    if categories.len() == 0 && strays.len() > 0 {
        full == seq![
            catalog::Category {
                id: "general"@,
                name: "General"@,
                description: None,
                subcategories: seq![all],
            },
        ]
    } else {
        &&& full.len() == categories.len()
        &&& forall|c: int|
            0 <= c < full.len() ==> {
                &&& (#[trigger] full[c]).id == categories[c].id
                &&& full[c].name == categories[c].name
                &&& full[c].description == categories[c].description
                &&& if c == 0 && categories[0].subcategories.len() == 0 && strays.len() > 0 {
                    full[0].subcategories == seq![all]
                } else {
                    full[c].subcategories.len() == categories[c].subcategories.len()
                }
            }
        &&& forall|c: int, s: int|
            #![trigger full[c].subcategories[s]]
            is_place(categories, c, s) ==> {
                &&& full[c].subcategories[s].id == categories[c].subcategories[s].id
                &&& full[c].subcategories[s].name == categories[c].subcategories[s].name
                &&& full[c].subcategories[s].description
                    == categories[c].subcategories[s].description
                &&& full[c].subcategories[s].assets == assets_of(
                    items_at(items, categories, c, s),
                    labels,
                ) + home_of_strays(c, s, strays)
            }
    }
}

/// A structured manifest gives a catalog exactly where each item of its lists describes a category
/// or an asset and the catalog has a subcategory. Then each asset is in the subcategory that it
/// refers to, whatever category it refers to; one that refers to no subcategory is in the first one
/// of the category it refers to; and one that refers to neither is in the first of all.
pub proof fn law_assets_are_put_where_they_belong(
    category_items: Seq<json::Tree>,
    asset_items: Seq<json::Tree>,
    labels: Option<Map<Seq<char>, Seq<char>>>,
)
    ensures
        ({
            let readable = (forall|c: int|
                0 <= c < category_items.len() ==> is_category(#[trigger] category_items[c]))
                && (forall|i: int|
                0 <= i < asset_items.len() ==> is_asset(#[trigger] asset_items[i], labels));
            let categories = structured::categories_in(category_items, labels)->0;
            match structured::assembled(category_items, asset_items, labels) {
                Some(full) => readable && puts_each_where_it_belongs(
                    full,
                    categories,
                    asset_items,
                    labels,
                ) && !catalog::bare(full),
                None => readable ==> catalog::bare(categories) && !(exists|i: int|
                    0 <= i < asset_items.len() && is_stray(#[trigger] asset_items[i], categories)),
            }
        }),
{
    law_categories_are_read(category_items, labels);
    lemma_all_are_assets(asset_items, labels);
    if structured::categories_in(category_items, labels) is Some && structured::assets_in(
        asset_items,
        labels,
    ) is Some {
        let categories = structured::categories_in(category_items, labels)->0;
        let strays = assets_of(stray_items(asset_items, categories), labels);
        let homed = structured::with_assets_at_home(asset_items, labels, categories);
        lemma_assets_at(asset_items, labels, categories, 0, 0);
        let full = structured::with_strays(homed, strays);
        assert forall|c: int, s: int|
            #![trigger homed[c].subcategories[s]]
            is_place(categories, c, s) implies homed[c].subcategories[s].assets == assets_of(
            items_at(asset_items, categories, c, s),
            labels,
        ) by {
            lemma_assets_at(asset_items, labels, categories, c, s);
            assert(describes_category(category_items[c], labels, categories[c]));
            assert(categories[c].subcategories[s].assets.len() == 0);
            assert(homed[c].subcategories[s].assets =~= assets_of(
                items_at(asset_items, categories, c, s),
                labels,
            ));
        }
        assert(puts_each_where_it_belongs(full, categories, asset_items, labels)) by {
            if !(categories.len() == 0 && strays.len() > 0) {
                assert forall|c: int, s: int|
                    #![trigger full[c].subcategories[s]]
                    is_place(categories, c, s) implies {
                    &&& full[c].subcategories[s].id == categories[c].subcategories[s].id
                    &&& full[c].subcategories[s].name == categories[c].subcategories[s].name
                    &&& full[c].subcategories[s].description
                        == categories[c].subcategories[s].description
                    &&& full[c].subcategories[s].assets == assets_of(
                        items_at(asset_items, categories, c, s),
                        labels,
                    ) + home_of_strays(c, s, strays)
                } by {
                    let own = homed[c].subcategories[s].assets;
                    assert(own + Seq::<catalog::Asset>::empty() =~= own);
                    if strays.len() == 0 {
                        assert(own + strays =~= own);
                    }
                    assert(full[c].subcategories[s].assets =~= own + home_of_strays(c, s, strays));
                }
            }
        }
        if catalog::bare(full) {
            assert(strays.len() == 0);
            assert forall|i: int| 0 <= i < asset_items.len() implies !is_stray(
                #[trigger] asset_items[i],
                categories,
            ) by {
                if is_stray(asset_items[i], categories) {
                    asset_items.lemma_filter_contains(
                        |item: json::Tree| is_stray(item, categories),
                        i,
                    );
                    assert(stray_items(asset_items, categories).len() > 0);
                }
            }
            assert forall|c: int| 0 <= c < categories.len() implies (
            #[trigger] categories[c]).subcategories.len() == 0 by {
                assert(full[c].subcategories.len() == 0);
            }
        }
    }
}

/// An asset that refers to a subcategory of the manifest is held by that subcategory, whatever
/// category it refers to.
pub proof fn law_referred_subcategories_hold_their_assets(
    category_items: Seq<json::Tree>,
    asset_items: Seq<json::Tree>,
    labels: Option<Map<Seq<char>, Seq<char>>>,
    i: int,
    id: Seq<char>,
    c: int,
    s: int,
)
    requires
        structured::assembled(category_items, asset_items, labels) is Some,
        0 <= i < asset_items.len(),
        refers(asset_items[i]->Object_0, "subcategories"@, id),
        is_last_subcategory(structured::categories_in(category_items, labels)->0, id, c, s),
    ensures
        ({
            let full = structured::assembled(category_items, asset_items, labels)->0;
            &&& is_place(full, c, s)
            &&& full[c].subcategories[s].id == id
            &&& full[c].subcategories[s].assets.contains(
                assets::asset_in(asset_items[i]->Object_0, labels)->0,
            )
        }),
{
    let full = structured::assembled(category_items, asset_items, labels)->0;
    let categories = structured::categories_in(category_items, labels)->0;
    law_assets_are_put_where_they_belong(category_items, asset_items, labels);
    assert(full[c].subcategories[s] == full[c].subcategories[s]);
    assert(refers_to_subcategory(asset_items[i], categories, c, s));
    let here = |item: json::Tree| belongs_at(item, categories, c, s);
    let found = items_at(asset_items, categories, c, s);
    asset_items.lemma_filter_contains(here, i);
    let k = choose|k: int| 0 <= k < found.len() && found[k] == asset_items[i];
    assert(found.contains(asset_items[i]));
    assert(assets_of(found, labels)[k] == assets::asset_in(asset_items[i]->Object_0, labels)->0);
    assert(full[c].subcategories[s].assets[k] == assets_of(found, labels)[k]);
}

/// Tables lead an asset to the place that they have for the subcategory it refers to; only where
/// they have none, to the first place of the category it refers to, where they have that.
pub proof fn law_tables_go_by_subcategories_first(
    members: Seq<(Seq<char>, json::Tree)>,
    categories: Map<Seq<char>, usize>,
    subcategories: Map<Seq<char>, (usize, usize)>,
    id: Seq<char>,
)
    ensures
        ({
            let target = structured::tabled_target(members, categories, subcategories);
            let without = forall|inner: Seq<char>| #[trigger]
                refers(members, "subcategories"@, inner) ==> !subcategories.contains_key(inner);
            &&& refers(members, "subcategories"@, id) && subcategories.contains_key(id) ==> target
                == Some(subcategories[id])
            &&& without && refers(members, "categories"@, id) && categories.contains_key(id)
                ==> target == Some((categories[id], 0usize))
            &&& without && (forall|outer: Seq<char>| #[trigger]
                refers(members, "categories"@, outer) ==> !categories.contains_key(outer)) ==> target
                is None
        }),
{
    let inner = structured::referred_id(members, "subcategories"@);
    let outer = structured::referred_id(members, "categories"@);
    law_first_references_count(members, "subcategories"@, id);
    law_first_references_count(members, "categories"@, id);
    if inner is Some {
        law_first_references_count(members, "subcategories"@, inner->0);
        assert(refers(members, "subcategories"@, inner->0));
    }
    if outer is Some {
        law_first_references_count(members, "categories"@, outer->0);
        assert(refers(members, "categories"@, outer->0));
    }
}

} // verus!
