//! The wallpaper catalog: categories, their subcategories, and the assets in them.

use vstd::multiset::Multiset;
use vstd::prelude::*;

use crate::text;

verus! {

/// One wallpaper to download.
#[derive(Debug)]
pub struct WallpaperAsset {
    pub id: String,
    pub title: String,
    pub description: Option<String>,
    pub url: String,
    pub file_name: String,
    pub extension: String,
}

/// A group of wallpapers within a category.
#[derive(Debug)]
pub struct WallpaperSubcategory {
    pub id: String,
    pub name: String,
    pub description: Option<String>,
    pub assets: Vec<WallpaperAsset>,
}

/// A category of wallpapers.
#[derive(Debug)]
pub struct WallpaperCategory {
    pub id: String,
    pub name: String,
    pub description: Option<String>,
    pub subcategories: Vec<WallpaperSubcategory>,
}

/// Everything that can be downloaded.
#[derive(Debug)]
pub struct WallpaperCatalog {
    pub categories: Vec<WallpaperCategory>,
}

/// The content of a [`WallpaperAsset`].
pub struct Asset {
    pub id: Seq<char>,
    pub title: Seq<char>,
    pub description: Option<Seq<char>>,
    pub url: Seq<char>,
    pub file_name: Seq<char>,
    pub extension: Seq<char>,
}

/// The content of a [`WallpaperSubcategory`].
pub struct Subcategory {
    pub id: Seq<char>,
    pub name: Seq<char>,
    pub description: Option<Seq<char>>,
    pub assets: Seq<Asset>,
}

/// The content of a [`WallpaperCategory`].
pub struct Category {
    pub id: Seq<char>,
    pub name: Seq<char>,
    pub description: Option<Seq<char>>,
    pub subcategories: Seq<Subcategory>,
}

/// The contents of a list of assets.
pub open spec fn assets(list: Seq<WallpaperAsset>) -> Seq<Asset> {
    Seq::new(list.len(), |i: int| list[i]@)
}

/// The contents of a list of subcategories.
pub open spec fn subcategories(list: Seq<WallpaperSubcategory>) -> Seq<Subcategory> {
    Seq::new(list.len(), |i: int| list[i]@)
}

/// The contents of a list of categories.
pub open spec fn categories(list: Seq<WallpaperCategory>) -> Seq<Category> {
    Seq::new(list.len(), |i: int| list[i]@)
}

impl View for WallpaperAsset {
    type V = Asset;

    open spec fn view(&self) -> Asset {
        Asset {
            id: self.id@,
            title: self.title@,
            description: text::text_option(self.description),
            url: self.url@,
            file_name: self.file_name@,
            extension: self.extension@,
        }
    }
}

impl View for WallpaperSubcategory {
    type V = Subcategory;

    open spec fn view(&self) -> Subcategory {
        Subcategory {
            id: self.id@,
            name: self.name@,
            description: text::text_option(self.description),
            assets: assets(self.assets@),
        }
    }
}

impl View for WallpaperCategory {
    type V = Category;

    open spec fn view(&self) -> Category {
        Category {
            id: self.id@,
            name: self.name@,
            description: text::text_option(self.description),
            subcategories: subcategories(self.subcategories@),
        }
    }
}

impl View for WallpaperCatalog {
    type V = Seq<Category>;

    open spec fn view(&self) -> Seq<Category> {
        categories(self.categories@)
    }
}

impl Clone for WallpaperAsset {
    fn clone(&self) -> (copy: Self)
        ensures
            copy == *self,
    {
        WallpaperAsset {
            id: self.id.clone(),
            title: self.title.clone(),
            description: self.description.clone(),
            url: self.url.clone(),
            file_name: self.file_name.clone(),
            extension: self.extension.clone(),
        }
    }
}

impl Clone for WallpaperSubcategory {
    fn clone(&self) -> (copy: Self)
        ensures
            copy@ == self@,
    {
        let copy = WallpaperSubcategory {
            id: self.id.clone(),
            name: self.name.clone(),
            description: self.description.clone(),
            assets: self.assets.clone(),
        };
        assert(copy.assets@ =~= self.assets@);
        copy
    }
}

impl Clone for WallpaperCategory {
    fn clone(&self) -> (copy: Self)
        ensures
            copy@ == self@,
    {
        let copy = WallpaperCategory {
            id: self.id.clone(),
            name: self.name.clone(),
            description: self.description.clone(),
            subcategories: self.subcategories.clone(),
        };
        assert(copy@.subcategories =~= self@.subcategories);
        copy
    }
}

impl Clone for WallpaperCatalog {
    fn clone(&self) -> (copy: Self)
        ensures
            copy@ == self@,
    {
        let copy = WallpaperCatalog { categories: self.categories.clone() };
        assert(copy@ =~= self@);
        copy
    }
}

/// A subcategory with more assets behind its own.
pub open spec fn with_more_assets(
    subcategory: Subcategory,
    more: Seq<Asset>,
) -> Subcategory {
    Subcategory { assets: subcategory.assets + more, ..subcategory }
}

/// The categories with one more asset at a place.
pub open spec fn with_asset(
    categories: Seq<Category>,
    category: int,
    at: int,
    asset: Asset,
) -> Seq<Category> {
    categories.update(
        category,
        Category {
            subcategories: categories[category].subcategories.update(
                at,
                with_more_assets(categories[category].subcategories[at], seq![asset]),
            ),
            ..categories[category]
        },
    )
}

/// The number of assets in a list of subcategories.
pub open spec fn asset_total(list: Seq<Subcategory>) -> nat
    decreases list.len(),
{
    if list.len() == 0 {
        0
    } else {
        asset_total(list.drop_last()) + list.last().assets.len()
    }
}

/// Whether the categories, the subcategories of each, and the assets of each can be counted in a
/// machine word.
pub open spec fn countable(list: Seq<Category>) -> bool {
    &&& list.len() <= usize::MAX
    &&& forall|c: int|
        0 <= c < list.len() ==> (#[trigger] list[c]).subcategories.len() <= usize::MAX
            && asset_total(list[c].subcategories) <= usize::MAX
}

/// No subcategory holds more assets than the list that it is in.
pub proof fn lemma_assets_within_total(list: Seq<Subcategory>, at: int)
    requires
        0 <= at < list.len(),
    ensures
        list[at].assets.len() <= asset_total(list),
    decreases list.len(),
{
    if at < list.len() - 1 {
        lemma_assets_within_total(list.drop_last(), at);
    }
}

proof fn lemma_asset_total_of_front(list: Seq<Subcategory>, count: int)
    requires
        0 <= count <= list.len(),
    ensures
        asset_total(list.take(count)) <= asset_total(list),
    decreases list.len(),
{
    if count == list.len() {
        assert(list.take(count) =~= list);
    } else {
        lemma_asset_total_of_front(list.drop_last(), count);
        assert(list.drop_last().take(count) =~= list.take(count));
    }
}

/// Counts the assets in a list of subcategories.
pub fn count_assets(list: &Vec<WallpaperSubcategory>) -> (count: usize)
    requires
        asset_total(subcategories(list@)) <= usize::MAX,
    ensures
        count == asset_total(subcategories(list@)),
{
    let mut count: usize = 0;
    let mut i: usize = 0;
    while i < list.len()
        invariant
            i <= list.len(),
            count == asset_total(subcategories(list@).take(i as int)),
            asset_total(subcategories(list@)) <= usize::MAX,
        decreases list.len() - i,
    {
        proof {
            let all = subcategories(list@);
            lemma_asset_total_of_front(all, i + 1);
            assert(all.take(i + 1).drop_last() =~= all.take(i as int));
        }
        count = count + list[i].assets.len();
        i = i + 1;
    }
    assert(subcategories(list@).take(i as int) =~= subcategories(list@));
    count
}

/// Adds an asset behind those of a subcategory.
pub fn add_asset(list: &mut Vec<WallpaperCategory>, category: usize, at: usize, asset: WallpaperAsset)
    requires
        category < old(list).len(),
        at < old(list)[category as int].subcategories.len(),
    ensures
        categories(final(list)@) == with_asset(
            categories(old(list)@),
            category as int,
            at as int,
            asset@,
        ),
{
    list[category].subcategories[at].assets.push(asset);
    let ghost before = old(list)@[category as int].subcategories@;
    let ghost after = list@[category as int].subcategories@;
    assert(assets(after[at as int].assets@) =~= assets(before[at as int].assets@)
        + seq![asset@]);
    assert(subcategories(after) =~= subcategories(before).update(
        at as int,
        with_more_assets(before[at as int]@, seq![asset@]),
    ));
    assert(categories(list@) =~= with_asset(
        categories(old(list)@),
        category as int,
        at as int,
        asset@,
    ));
}

/// Whether no category has a subcategory.
pub open spec fn bare(categories: Seq<Category>) -> bool {
    forall|c: int|
        0 <= c < categories.len() ==> (#[trigger] categories[c]).subcategories.len() == 0
}

// ---------------------------------------------------------------------------------------------
// What a catalog holds
// ---------------------------------------------------------------------------------------------
/// The assets in a list of subcategories, in whatever order.
pub open spec fn held_in(list: Seq<Subcategory>) -> Multiset<Asset>
    decreases list.len(),
{
    if list.len() == 0 {
        Multiset::empty()
    } else {
        held_in(list.drop_last()).add(list.last().assets.to_multiset())
    }
}

/// The assets in a list of categories, in whatever order.
pub open spec fn held(list: Seq<Category>) -> Multiset<Asset>
    decreases list.len(),
{
    if list.len() == 0 {
        Multiset::empty()
    } else {
        held(list.drop_last()).add(held_in(list.last().subcategories))
    }
}

proof fn lemma_more_assets_in(list: Seq<Subcategory>, at: int, more: Seq<Asset>)
    requires
        0 <= at < list.len(),
    ensures
        held_in(list.update(at, with_more_assets(list[at], more))) == held_in(list).add(
            more.to_multiset(),
        ),
    decreases list.len(),
{
    let after = list.update(at, with_more_assets(list[at], more));
    if at == list.len() - 1 {
        assert(after.drop_last() =~= list.drop_last());
        vstd::seq_lib::lemma_multiset_commutative(list[at].assets, more);
        assert(held_in(after) =~= held_in(list).add(more.to_multiset()));
    } else {
        lemma_more_assets_in(list.drop_last(), at, more);
        assert(after.drop_last() =~= list.drop_last().update(at, with_more_assets(list[at], more)));
        assert(held_in(after) =~= held_in(list).add(more.to_multiset()));
    }
}

/// A catalog whose categories differ in one place holds what it held but for that place.
pub proof fn lemma_held_after_change(
    list: Seq<Category>,
    category: int,
    changed: Category,
    more: Seq<Asset>,
)
    requires
        0 <= category < list.len(),
        held_in(changed.subcategories) == held_in(list[category].subcategories).add(
            more.to_multiset(),
        ),
    ensures
        held(list.update(category, changed)) == held(list).add(more.to_multiset()),
    decreases list.len(),
{
    let after = list.update(category, changed);
    if category == list.len() - 1 {
        assert(after.drop_last() =~= list.drop_last());
        assert(held(after) =~= held(list).add(more.to_multiset()));
    } else {
        lemma_held_after_change(list.drop_last(), category, changed, more);
        assert(after.drop_last() =~= list.drop_last().update(category, changed));
        assert(held(after) =~= held(list).add(more.to_multiset()));
    }
}

/// Adding assets to a subcategory adds them to what the catalog holds.
pub proof fn lemma_held_with_more(list: Seq<Category>, category: int, at: int, more: Seq<Asset>)
    requires
        0 <= category < list.len(),
        0 <= at < list[category].subcategories.len(),
    ensures
        held(
            list.update(
                category,
                Category {
                    subcategories: list[category].subcategories.update(
                        at,
                        with_more_assets(list[category].subcategories[at], more),
                    ),
                    ..list[category]
                },
            ),
        ) == held(list).add(more.to_multiset()),
{
    lemma_more_assets_in(list[category].subcategories, at, more);
    let changed = Category {
        subcategories: list[category].subcategories.update(
            at,
            with_more_assets(list[category].subcategories[at], more),
        ),
        ..list[category]
    };
    lemma_held_after_change(list, category, changed, more);
}

proof fn lemma_total_held_in(list: Seq<Subcategory>)
    ensures
        held_in(list).len() == asset_total(list),
    decreases list.len(),
{
    if list.len() > 0 {
        lemma_total_held_in(list.drop_last());
        list.last().assets.to_multiset_ensures();
    }
}

proof fn lemma_total_within_held(list: Seq<Category>, category: int)
    requires
        0 <= category < list.len(),
    ensures
        asset_total(list[category].subcategories) <= held(list).len(),
    decreases list.len(),
{
    lemma_total_held_in(list.last().subcategories);
    if category < list.len() - 1 {
        lemma_total_within_held(list.drop_last(), category);
    }
}

/// A catalog can be counted if what it holds can.
pub proof fn lemma_countable(found: WallpaperCatalog)
    requires
        held(found@).len() <= usize::MAX,
    ensures
        countable(found@),
{
    assert(found.categories.len() <= usize::MAX);
    assert forall|c: int| 0 <= c < found@.len() implies (#[trigger] found@[c]).subcategories.len()
        <= usize::MAX && asset_total(found@[c].subcategories) <= usize::MAX by {
        assert(found.categories@[c].subcategories.len() <= usize::MAX);
        lemma_total_within_held(found@, c);
    }
}

/// The number of assets in some subcategories is the sum of the numbers in each.
pub proof fn law_totals_add_up(left: Seq<Subcategory>, it: Subcategory)
    ensures
        asset_total(Seq::empty()) == 0,
        asset_total(left.push(it)) == asset_total(left) + it.assets.len(),
{
    assert(left.push(it).drop_last() =~= left);
}

/// An asset that is added stands behind those of its subcategory, and nothing else changes.
pub proof fn law_added_assets_stand_last(
    categories: Seq<Category>,
    c: int,
    s: int,
    asset: Asset,
    d: int,
    t: int,
)
    requires
        0 <= c < categories.len(),
        0 <= s < categories[c].subcategories.len(),
        0 <= d < categories.len(),
        0 <= t < categories[d].subcategories.len(),
    ensures
        ({
            let after = with_asset(categories, c, s, asset);
            let it = categories[d].subcategories[t];
            &&& after.len() == categories.len()
            &&& after[d] == (Category { subcategories: after[d].subcategories, ..categories[d] })
            &&& after[d].subcategories.len() == categories[d].subcategories.len()
            &&& after[d].subcategories[t] == if d == c && t == s {
                Subcategory { assets: it.assets.push(asset), ..it }
            } else {
                it
            }
        }),
{
    let it = categories[c].subcategories[s];
    assert(it.assets + seq![asset] =~= it.assets.push(asset));
}

/// A catalog is bare exactly where there is no subcategory in any of its categories.
pub proof fn law_bare_catalogs_have_no_subcategory(list: Seq<Category>)
    ensures
        bare(list) == !(exists|c: int|
            0 <= c < list.len() && (#[trigger] list[c]).subcategories.len() > 0),
{
}

} // verus!
