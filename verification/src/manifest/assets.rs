//! The assets in a manifest, and the fields and labels of its objects.

use vstd::prelude::*;

use crate::catalog;
use crate::catalog::WallpaperAsset;
use crate::json;
use crate::json::Json;
use crate::naming;
use crate::strings::StringsCatalog;
use crate::text;

verus! {

// ---------------------------------------------------------------------------------------------
// Fields and labels
// ---------------------------------------------------------------------------------------------
/// The text of the member under `key`, where it is one that is not blank.
pub open spec fn text_at(members: Seq<(Seq<char>, json::Tree)>, key: Seq<char>) -> Option<
    Seq<char>,
> {
    match json::member(members, key) {
        Some(json::Tree::Text(content)) => if text::blank(content) {
            None
        } else {
            Some(content)
        },
        _ => None,
    }
}

/// The first text that is not blank among the members under `keys`.
pub open spec fn text_field(
    members: Seq<(Seq<char>, json::Tree)>,
    keys: Seq<Seq<char>>,
) -> Option<Seq<char>>
    decreases keys.len(),
{
    if keys.len() == 0 {
        None
    } else {
        match text_at(members, keys[0]) {
            Some(content) => Some(content),
            None => text_field(members, keys.drop_first()),
        }
    }
}

/// Finds the first text that is not blank among the members under `keys`.
pub fn string_field(map: &Vec<(String, Json)>, keys: &[&str]) -> (found: Option<String>)
    ensures
        text::text_option(found) == text_field(json::pairs(map@), text::words(keys@)),
{
    let ghost all = text::words(keys@);
    let mut i: usize = 0;
    assert(all.skip(0) =~= all);
    while i < keys.len()
        invariant
            i <= keys.len(),
            all == text::words(keys@),
            text_field(json::pairs(map@), all) == text_field(
                json::pairs(map@),
                all.skip(i as int),
            ),
        decreases keys.len() - i,
    {
        assert(all.skip(i as int)[0] == keys@[i as int]@);
        assert(all.skip(i as int).drop_first() =~= all.skip(i + 1));
        if let Some(value) = json::find_member(map, keys[i]) {
            if let Some(content) = value.as_str() {
                if !text::is_blank(content) {
                    return Some(content.to_owned());
                }
            }
        }
        i = i + 1;
    }
    None
}

/// The labels in use, if any.
pub open spec fn labels_in(strings: Option<&StringsCatalog>) -> Option<
    Map<Seq<char>, Seq<char>>,
> {
    match strings {
        Some(strings) => Some(strings@),
        None => None,
    }
}

/// The label under `key`, where there is one that is not blank.
pub open spec fn localized(
    labels: Option<Map<Seq<char>, Seq<char>>>,
    key: Option<Seq<char>>,
) -> Option<Seq<char>> {
    match (labels, key) {
        (Some(labels), Some(key)) => if labels.contains_key(key) && !text::blank(labels[key]) {
            Some(labels[key])
        } else {
            None
        },
        _ => None,
    }
}

/// The label to show: the localized one, else the fallback made readable, else "General".
pub open spec fn shown_label(
    labels: Option<Map<Seq<char>, Seq<char>>>,
    key: Option<Seq<char>>,
    fallback: Option<Seq<char>>,
) -> Seq<char> {
    match localized(labels, key) {
        Some(label) => label,
        None => match fallback {
            Some(raw) => naming::normal_label(raw),
            None => naming::general(),
        },
    }
}

/// Decides on the label to show.
pub fn resolve_label(
    strings: Option<&StringsCatalog>,
    localized_name_key: Option<String>,
    fallback: Option<String>,
) -> (label: String)
    ensures
        label@ == shown_label(
            labels_in(strings),
            text::text_option(localized_name_key),
            text::text_option(fallback),
        ),
{
    if let Some(strings) = strings {
        if let Some(key) = &localized_name_key {
            if let Some(value) = strings.lookup(key.as_str()) {
                if !text::is_blank(value) {
                    return value.to_owned();
                }
            }
        }
    }
    match fallback {
        Some(raw) => naming::normalize_label(raw.as_str()),
        None => "General".to_owned(),
    }
}

/// A label is never blank.
pub proof fn law_labels_are_never_blank(
    labels: Option<Map<Seq<char>, Seq<char>>>,
    key: Option<Seq<char>>,
    fallback: Option<Seq<char>>,
)
    ensures
        !text::blank(shown_label(labels, key, fallback)),
{
    match fallback {
        Some(raw) => {
            naming::law_labels_are_readable(raw);
        },
        None => {
            reveal_strlit("General");
            assert(!text::white_space(naming::general()[0]));
        },
    }
}

// ---------------------------------------------------------------------------------------------
// Assets
// ---------------------------------------------------------------------------------------------
/// The members that may hold an asset's URL, best first.
pub open spec fn url_keys() -> Seq<Seq<char>> {
    seq![
        "url-4K-SDR-240FPS"@,
        "url-4K-HDR-240FPS"@,
        "url-4K-SDR"@,
        "url-4K-HDR"@,
        "url-HD"@,
        "url"@,
        "downloadURL"@,
    ]
}

/// The text of the first member whose key starts with "url-" and which is a text.
pub open spec fn any_url(members: Seq<(Seq<char>, json::Tree)>) -> Option<Seq<char>>
    decreases members.len(),
{
    if members.len() == 0 {
        None
    } else if "url-"@.is_prefix_of(members[0].0) && members[0].1 is Text {
        Some(members[0].1->Text_0)
    } else {
        any_url(members.drop_first())
    }
}

/// The URL to download an asset from.
pub open spec fn best_url(members: Seq<(Seq<char>, json::Tree)>) -> Option<Seq<char>> {
    match text_field(members, url_keys()) {
        Some(url) => Some(url),
        None => any_url(members),
    }
}

/// Picks the URL to download an asset from.
pub fn pick_url(map: &Vec<(String, Json)>) -> (url: Option<String>)
    ensures
        text::text_option(url) == best_url(json::pairs(map@)),
{
    let preferred = [
        "url-4K-SDR-240FPS",
        "url-4K-HDR-240FPS",
        "url-4K-SDR",
        "url-4K-HDR",
        "url-HD",
        "url",
        "downloadURL",
    ];
    assert(text::words(preferred@) =~= url_keys());
    if let Some(url) = string_field(map, &preferred) {
        return Some(url);
    }
    let ghost all = json::pairs(map@);
    let mut i: usize = 0;
    assert(all.skip(0) =~= all);
    while i < map.len()
        invariant
            i <= map.len(),
            all == json::pairs(map@),
            best_url(all) == any_url(all.skip(i as int)),
        decreases map.len() - i,
    {
        assert(all.skip(i as int)[0] == all[i as int]);
        assert(all.skip(i as int).drop_first() =~= all.skip(i + 1));
        if text::starts_with(map[i].0.as_str(), "url-") {
            if let Some(url) = map[i].1.as_str() {
                return Some(url.to_owned());
            }
        }
        i = i + 1;
    }
    None
}

/// The members that may hold an asset's title, best first.
pub open spec fn title_keys() -> Seq<Seq<char>> {
    seq!["title"@, "name"@, "displayName"@, "accessibilityLabel"@, "localizedName"@]
}

/// The members that may hold an asset's description, best first.
pub open spec fn asset_description_keys() -> Seq<Seq<char>> {
    seq![
        "description"@,
        "subtitle"@,
        "storyline"@,
        "localizedDescription"@,
        "localizedDescriptionKey"@,
        "category"@,
    ]
}

/// The file name of an asset.
pub open spec fn asset_file_name(id: Seq<char>, url: Seq<char>) -> Seq<char> {
    naming::safe_name(id) + naming::url_extension(url)
}

/// The asset that an object describes: there is one where it has an id and a URL.
pub open spec fn asset_in(
    members: Seq<(Seq<char>, json::Tree)>,
    labels: Option<Map<Seq<char>, Seq<char>>>,
) -> Option<catalog::Asset> {
    match (text_field(members, seq!["id"@]), best_url(members)) {
        (Some(id), Some(url)) => Some(
            catalog::Asset {
                id,
                title: shown_label(
                    labels,
                    text_field(members, seq!["localizedNameKey"@]),
                    text_field(members, title_keys()),
                ),
                description: text_field(members, asset_description_keys()),
                url,
                file_name: asset_file_name(id, url),
                extension: naming::url_extension(url),
            },
        ),
        _ => None,
    }
}

/// The content of an optional asset.
pub open spec fn asset_option(asset: Option<WallpaperAsset>) -> Option<catalog::Asset> {
    match asset {
        Some(asset) => Some(asset@),
        None => None,
    }
}

/// Reads the asset that an object describes.
pub fn extract_asset(map: &Vec<(String, Json)>, strings: Option<&StringsCatalog>) -> (asset: Option<
    WallpaperAsset,
>)
    ensures
        asset_option(asset) == asset_in(json::pairs(map@), labels_in(strings)),
{
    let id_keys = ["id"];
    assert(text::words(id_keys@) =~= seq!["id"@]);
    let id = match string_field(map, &id_keys) {
        Some(id) => id,
        None => {
            return None;
        },
    };
    let url = match pick_url(map) {
        Some(url) => url,
        None => {
            return None;
        },
    };
    let extension = naming::extension_from_url(url.as_str());
    let mut file_name = naming::sanitize_filename(id.as_str());
    file_name.append(extension.as_str());
    let label_keys = ["localizedNameKey"];
    assert(text::words(label_keys@) =~= seq!["localizedNameKey"@]);
    let titles = ["title", "name", "displayName", "accessibilityLabel", "localizedName"];
    assert(text::words(titles@) =~= title_keys());
    let title = resolve_label(
        strings,
        string_field(map, &label_keys),
        string_field(map, &titles),
    );
    let descriptions = [
        "description",
        "subtitle",
        "storyline",
        "localizedDescription",
        "localizedDescriptionKey",
        "category",
    ];
    assert(text::words(descriptions@) =~= asset_description_keys());
    let description = string_field(map, &descriptions);
    Some(WallpaperAsset { id, title, description, url, file_name, extension })
}

/// The file name of an asset is not empty and holds no slash.
pub proof fn law_asset_files_hold_no_slash(id: Seq<char>, url: Seq<char>)
    ensures
        !asset_file_name(id, url).contains('/'),
        asset_file_name(id, url).len() > 0,
{
    naming::law_names_are_safe(id);
    naming::law_extensions_hold_no_slash(url);
    let name = naming::safe_name(id);
    let extension = naming::url_extension(url);
    assert forall|i: int| 0 <= i < asset_file_name(id, url).len() implies asset_file_name(
        id,
        url,
    )[i] != '/' by {
        if i < name.len() {
            assert(asset_file_name(id, url)[i] == name[i]);
        } else {
            assert(asset_file_name(id, url)[i] == extension[i - name.len()]);
            assert(extension.contains(extension[i - name.len()]));
        }
    }
}

// ---------------------------------------------------------------------------------------------
// Which field counts
// ---------------------------------------------------------------------------------------------
/// Whether an object has, as its first member under `key`, a text that is not blank: this one.
pub open spec fn says(
    members: Seq<(Seq<char>, json::Tree)>,
    key: Seq<char>,
    content: Seq<char>,
) -> bool {
    json::member(members, key) == Some(json::Tree::Text(content)) && !text::blank(content)
}

/// Whether an object has no text that is not blank as its first member under `key`.
pub open spec fn silent(members: Seq<(Seq<char>, json::Tree)>, key: Seq<char>) -> bool {
    forall|content: Seq<char>| !#[trigger] says(members, key, content)
}

/// Whether `found` is what the first of `keys` under which an object says anything says; nothing,
/// where it says nothing under any of them.
pub open spec fn first_said(
    members: Seq<(Seq<char>, json::Tree)>,
    keys: Seq<Seq<char>>,
    found: Option<Seq<char>>,
) -> bool {
    match found {
        Some(content) => exists|i: int|
            {
                &&& 0 <= i < keys.len()
                &&& says(members, #[trigger] keys[i], content)
                &&& forall|k: int| 0 <= k < i ==> silent(members, #[trigger] keys[k])
            },
        None => forall|k: int| 0 <= k < keys.len() ==> silent(members, #[trigger] keys[k]),
    }
}

/// A field is what the first of its keys under which the object says anything says, whatever stands
/// under later ones.
pub proof fn law_first_key_counts(members: Seq<(Seq<char>, json::Tree)>, keys: Seq<Seq<char>>)
    ensures
        first_said(members, keys, text_field(members, keys)),
    decreases keys.len(),
{
    if keys.len() > 0 {
        let rest = keys.drop_first();
        law_first_key_counts(members, rest);
        match text_at(members, keys[0]) {
            Some(content) => {
                assert(says(members, keys[0], content));
            },
            None => {
                assert(silent(members, keys[0]));
                match text_field(members, keys) {
                    Some(content) => {
                        let i = choose|i: int|
                            {
                                &&& 0 <= i < rest.len()
                                &&& says(members, #[trigger] rest[i], content)
                                &&& forall|k: int|
                                    0 <= k < i ==> silent(members, #[trigger] rest[k])
                            };
                        assert(keys[i + 1] == rest[i]);
                        assert forall|k: int| 0 <= k < i + 1 implies silent(
                            members,
                            #[trigger] keys[k],
                        ) by {
                            if k > 0 {
                                assert(rest[k - 1] == keys[k]);
                            }
                        }
                    },
                    None => {
                        assert forall|k: int| 0 <= k < keys.len() implies silent(
                            members,
                            #[trigger] keys[k],
                        ) by {
                            if k > 0 {
                                assert(rest[k - 1] == keys[k]);
                            }
                        }
                    },
                }
            },
        }
    }
}

/// There is only one text that an object says first.
proof fn lemma_first_said_once(
    members: Seq<(Seq<char>, json::Tree)>,
    keys: Seq<Seq<char>>,
    at: int,
    content: Seq<char>,
)
    requires
        0 <= at < keys.len(),
        says(members, keys[at], content),
        forall|k: int| 0 <= k < at ==> silent(members, #[trigger] keys[k]),
    ensures
        text_field(members, keys) == Some(content),
{
    law_first_key_counts(members, keys);
    match text_field(members, keys) {
        Some(other) => {
            let i = choose|i: int|
                {
                    &&& 0 <= i < keys.len()
                    &&& says(members, #[trigger] keys[i], other)
                    &&& forall|k: int| 0 <= k < i ==> silent(members, #[trigger] keys[k])
                };
            assert(i == at) by {
                if i < at {
                    assert(silent(members, keys[i]));
                } else if at < i {
                    assert(silent(members, keys[at]));
                }
            }
        },
        None => {
            assert(silent(members, keys[at]));
        },
    }
}

/// The URL of an asset is the one of best quality: of the keys from 4K in standard range at 240
/// frames down to a plain download, the first under which the object says anything counts, whatever
/// stands under worse ones.
pub proof fn law_best_quality_is_picked(
    members: Seq<(Seq<char>, json::Tree)>,
    at: int,
    url: Seq<char>,
)
    requires
        ({
            let keys = seq![
                "url-4K-SDR-240FPS"@,
                "url-4K-HDR-240FPS"@,
                "url-4K-SDR"@,
                "url-4K-HDR"@,
                "url-HD"@,
                "url"@,
                "downloadURL"@,
            ];
            &&& 0 <= at < 7
            &&& says(members, keys[at], url)
            &&& forall|k: int| 0 <= k < at ==> silent(members, #[trigger] keys[k])
        }),
    ensures
        best_url(members) == Some(url),
{
    let keys = seq![
        "url-4K-SDR-240FPS"@,
        "url-4K-HDR-240FPS"@,
        "url-4K-SDR"@,
        "url-4K-HDR"@,
        "url-HD"@,
        "url"@,
        "downloadURL"@,
    ];
    assert(keys =~= url_keys());
    lemma_first_said_once(members, keys, at, url);
}

/// Where an object says nothing under any of the keys for URLs, its first member counts whose key
/// begins like one and which is a text; where there is none, the object has no URL.
pub proof fn law_any_url_is_better_than_none(members: Seq<(Seq<char>, json::Tree)>, at: int)
    requires
        ({
            let keys = seq![
                "url-4K-SDR-240FPS"@,
                "url-4K-HDR-240FPS"@,
                "url-4K-SDR"@,
                "url-4K-HDR"@,
                "url-HD"@,
                "url"@,
                "downloadURL"@,
            ];
            forall|k: int| 0 <= k < 7 ==> silent(members, #[trigger] keys[k])
        }),
        0 <= at <= members.len(),
        at < members.len() ==> "url-"@.is_prefix_of(members[at].0) && members[at].1 is Text,
        forall|i: int|
            0 <= i < at ==> !("url-"@.is_prefix_of((#[trigger] members[i]).0) && members[i].1 is Text),
    ensures
        best_url(members) == if at < members.len() {
            Some(members[at].1->Text_0)
        } else {
            None
        },
{
    let keys = seq![
        "url-4K-SDR-240FPS"@,
        "url-4K-HDR-240FPS"@,
        "url-4K-SDR"@,
        "url-4K-HDR"@,
        "url-HD"@,
        "url"@,
        "downloadURL"@,
    ];
    assert(keys =~= url_keys());
    law_first_key_counts(members, keys);
    if text_field(members, keys) is Some {
        let i = choose|i: int|
            0 <= i < keys.len() && says(
                members,
                #[trigger] keys[i],
                text_field(members, keys)->0,
            );
        assert(silent(members, keys[i]));
    }
    lemma_first_url(members, at);
}

proof fn lemma_first_url(members: Seq<(Seq<char>, json::Tree)>, at: int)
    requires
        0 <= at <= members.len(),
        at < members.len() ==> "url-"@.is_prefix_of(members[at].0) && members[at].1 is Text,
        forall|i: int|
            0 <= i < at ==> !("url-"@.is_prefix_of((#[trigger] members[i]).0) && members[i].1 is Text),
    ensures
        any_url(members) == if at < members.len() {
            Some(members[at].1->Text_0)
        } else {
            None
        },
    decreases members.len(),
{
    if at > 0 {
        let rest = members.drop_first();
        assert(!("url-"@.is_prefix_of(members[0].0) && members[0].1 is Text));
        assert forall|i: int| 0 <= i < at - 1 implies !("url-"@.is_prefix_of(
            (#[trigger] rest[i]).0,
        ) && rest[i].1 is Text) by {
            assert(rest[i] == members[i + 1]);
        }
        lemma_first_url(rest, at - 1);
    }
}

// ---------------------------------------------------------------------------------------------
// Which label is shown
// ---------------------------------------------------------------------------------------------
/// A label that is not blank under the key that is asked for is the one that is shown, word for
/// word, whatever the fallback is.
pub proof fn law_localized_labels_come_first(
    labels: Map<Seq<char>, Seq<char>>,
    key: Seq<char>,
    fallback: Option<Seq<char>>,
)
    requires
        labels.contains_key(key),
        !text::blank(labels[key]),
    ensures
        shown_label(Some(labels), Some(key), fallback) == labels[key],
{
}

/// Without a label under the key that is asked for, or with a blank one, the fallback is shown,
/// made readable; where there is none, the name of things that have none.
pub proof fn law_fallbacks_are_shown_without_labels(
    labels: Option<Map<Seq<char>, Seq<char>>>,
    key: Option<Seq<char>>,
    fallback: Seq<char>,
)
    requires
        labels is None || key is None || !labels->0.contains_key(key->0) || text::blank(
            labels->0[key->0],
        ),
    ensures
        shown_label(labels, key, Some(fallback)) == naming::normal_label(fallback),
        shown_label(labels, key, None) == "General"@,
{
}

/// The key for an object's label, and the text that stands in for the label, are taken from the
/// object; the name that is shown is made of both.
pub open spec fn named(
    members: Seq<(Seq<char>, json::Tree)>,
    labels: Option<Map<Seq<char>, Seq<char>>>,
    keys: Seq<Seq<char>>,
    name: Seq<char>,
) -> bool {
    &&& forall|key: Seq<char>| #[trigger]
        says(members, "localizedNameKey"@, key) && labels is Some && labels->0.contains_key(key)
            && !text::blank(labels->0[key]) ==> name == labels->0[key]
    &&& (forall|key: Seq<char>| #[trigger]
        says(members, "localizedNameKey"@, key) ==> labels is None || !labels->0.contains_key(key)
            || text::blank(labels->0[key])) ==> {
        &&& forall|raw: Seq<char>| #[trigger]
            first_said(members, keys, Some(raw)) ==> name == naming::normal_label(raw)
        &&& first_said(members, keys, None) ==> name == "General"@
    }
}

/// What is first said under some keys is the field under them.
pub proof fn lemma_first_said_is_the_field(
    members: Seq<(Seq<char>, json::Tree)>,
    keys: Seq<Seq<char>>,
    found: Option<Seq<char>>,
)
    requires
        first_said(members, keys, found),
    ensures
        text_field(members, keys) == found,
{
    match found {
        Some(content) => {
            let i = choose|i: int|
                {
                    &&& 0 <= i < keys.len()
                    &&& says(members, #[trigger] keys[i], content)
                    &&& forall|k: int| 0 <= k < i ==> silent(members, #[trigger] keys[k])
                };
            lemma_first_said_once(members, keys, i, content);
        },
        None => {
            law_first_key_counts(members, keys);
            if text_field(members, keys) is Some {
                let i = choose|i: int|
                    0 <= i < keys.len() && says(
                        members,
                        #[trigger] keys[i],
                        text_field(members, keys)->0,
                    );
                assert(silent(members, keys[i]));
            }
        },
    }
}

/// The label made of the key for an object's label and of a field is the name of the object.
pub proof fn lemma_named(
    members: Seq<(Seq<char>, json::Tree)>,
    labels: Option<Map<Seq<char>, Seq<char>>>,
    keys: Seq<Seq<char>>,
)
    ensures
        named(
            members,
            labels,
            keys,
            shown_label(
                labels,
                text_field(members, seq!["localizedNameKey"@]),
                text_field(members, keys),
            ),
        ),
{
    let one = seq!["localizedNameKey"@];
    let key = text_field(members, one);
    law_first_key_counts(members, one);
    assert forall|content: Seq<char>| #[trigger] says(
        members,
        "localizedNameKey"@,
        content,
    ) implies key == Some(content) by {
        assert(one[0] == "localizedNameKey"@);
        lemma_first_said_once(members, one, 0, content);
    }
    if key is Some {
        let i = choose|i: int| 0 <= i < one.len() && says(members, #[trigger] one[i], key->0);
        assert(says(members, "localizedNameKey"@, key->0));
    }
    assert forall|raw: Seq<char>| #[trigger] first_said(members, keys, Some(raw)) implies text_field(
        members,
        keys,
    ) == Some(raw) by {
        lemma_first_said_is_the_field(members, keys, Some(raw));
    }
    if first_said(members, keys, None) {
        lemma_first_said_is_the_field(members, keys, None);
    }
}

/// An object is an asset exactly where it has an id and a URL. Then the asset has that id and that
/// URL; it is named by its label, else by the best of its titles; its description is the best of
/// those it has; and its file is named by the id and the URL.
pub proof fn law_assets_are_read(
    members: Seq<(Seq<char>, json::Tree)>,
    labels: Option<Map<Seq<char>, Seq<char>>>,
)
    ensures
        asset_in(members, labels) is None == (silent(members, "id"@) || best_url(members) is None),
        asset_in(members, labels) matches Some(asset) ==> {
            &&& says(members, "id"@, asset.id)
            &&& best_url(members) == Some(asset.url)
            &&& named(
                members,
                labels,
                seq!["title"@, "name"@, "displayName"@, "accessibilityLabel"@, "localizedName"@],
                asset.title,
            )
            &&& first_said(
                members,
                seq![
                    "description"@,
                    "subtitle"@,
                    "storyline"@,
                    "localizedDescription"@,
                    "localizedDescriptionKey"@,
                    "category"@,
                ],
                asset.description,
            )
            &&& asset.extension == naming::url_extension(asset.url)
            &&& asset.file_name == naming::safe_name(asset.id) + naming::url_extension(asset.url)
        },
{
    let ids = seq!["id"@];
    assert(ids[0] == "id"@);
    law_first_key_counts(members, ids);
    if text_field(members, ids) is Some {
        let i = choose|i: int|
            0 <= i < ids.len() && says(members, #[trigger] ids[i], text_field(members, ids)->0);
        assert(says(members, "id"@, text_field(members, ids)->0));
    } else {
        assert(silent(members, ids[0]));
    }
    let titles = seq![
        "title"@,
        "name"@,
        "displayName"@,
        "accessibilityLabel"@,
        "localizedName"@,
    ];
    assert(titles =~= title_keys());
    lemma_named(members, labels, titles);
    let descriptions = seq![
        "description"@,
        "subtitle"@,
        "storyline"@,
        "localizedDescription"@,
        "localizedDescriptionKey"@,
        "category"@,
    ];
    assert(descriptions =~= asset_description_keys());
    law_first_key_counts(members, descriptions);
}

} // verus!
