use awm::json::{parse_json, Json};
use awm::manifest::{
    extract_asset, is_container_key, is_metadata_key, load_manifest, parse_catalog,
    parse_heuristic_catalog, parse_structured_catalog, pick_url, ref_id, resolve_label,
    ManifestError,
};
use awm::naming::{extension_from_url, normalize_label, sanitize_filename};
use awm::strings::StringsCatalog;

fn document(text: &str) -> Json {
    parse_json(text).unwrap()
}

#[test]
fn normalize_label_strips_aerial_category_prefix() {
    assert_eq!(normalize_label("AerialCategoryNature"), "Nature");
}

#[test]
fn normalize_label_strips_aerial_subcategory_prefix() {
    assert_eq!(normalize_label("AerialSubcategoryDesert"), "Desert");
}

#[test]
fn normalize_label_splits_camel_case_words() {
    assert_eq!(normalize_label("NorthAmerica"), "North America");
}

#[test]
fn normalize_label_returns_general_for_empty() {
    assert_eq!(normalize_label(""), "General");
}

#[test]
fn sanitize_filename_replaces_path_separator() {
    assert_eq!(sanitize_filename("foo/bar"), "foo_bar");
}

#[test]
fn sanitize_filename_trims_leading_underscores() {
    assert_eq!(sanitize_filename("/leading"), "leading");
}

#[test]
fn sanitize_filename_replaces_colon_and_asterisk() {
    assert_eq!(sanitize_filename("foo:bar*baz"), "foo_bar_baz");
}

#[test]
fn extension_from_url_ignores_query_params() {
    assert_eq!(
        extension_from_url("https://cdn.example.com/wallpaper.mov?token=abc&expire=123"),
        ".mov"
    );
}

#[test]
fn extension_from_url_defaults_to_mov_when_no_ext() {
    assert_eq!(
        extension_from_url("https://cdn.example.com/wallpaper"),
        ".mov"
    );
}

#[test]
fn pick_url_prefers_4k_sdr_240fps_over_4k_sdr() {
    let json = document(
        r#"{
            "url-4K-SDR": "https://example.com/4ksdr.mov",
            "url-4K-SDR-240FPS": "https://example.com/4ksdr240.mov"
        }"#,
    );
    assert_eq!(
        pick_url(json.as_object().unwrap()).unwrap(),
        "https://example.com/4ksdr240.mov"
    );
}

#[test]
fn pick_url_falls_back_to_download_url() {
    let json = document(r#"{"downloadURL": "https://example.com/download.mov"}"#);
    assert_eq!(
        pick_url(json.as_object().unwrap()).unwrap(),
        "https://example.com/download.mov"
    );
}

#[test]
fn pick_url_returns_none_when_no_url_present() {
    let json = document(r#"{"title": "no url here", "id": "abc"}"#);
    assert!(pick_url(json.as_object().unwrap()).is_none());
}

#[test]
fn structured_catalog_routes_assets_to_correct_subcategories() {
    let json = document(
        r#"{
            "categories": [
                {
                    "id": "cat1",
                    "name": "Nature",
                    "subcategories": [
                        {"id": "sub1", "name": "Forests"},
                        {"id": "sub2", "name": "Oceans"}
                    ]
                }
            ],
            "assets": [
                {
                    "id": "asset1",
                    "title": "Forest Scene",
                    "subcategories": [{"id": "sub1"}],
                    "url-4K-SDR": "https://example.com/forest.mov"
                },
                {
                    "id": "asset2",
                    "title": "Ocean Waves",
                    "subcategories": [{"id": "sub2"}],
                    "url-4K-SDR": "https://example.com/ocean.mov"
                }
            ]
        }"#,
    );
    let catalog = parse_structured_catalog(&json, None).unwrap();
    assert_eq!(catalog.categories[0].subcategories[0].assets[0].title, "Forest Scene");
    assert_eq!(catalog.categories[0].subcategories[1].assets[0].title, "Ocean Waves");
}

#[test]
fn unassigned_assets_create_fallback_general_category() {
    let json = document(
        r#"{
            "categories": [],
            "assets": [
                {
                    "id": "stray1",
                    "title": "Stray Asset",
                    "url-HD": "https://example.com/stray.mov"
                }
            ]
        }"#,
    );
    let catalog = parse_structured_catalog(&json, None).unwrap();
    assert_eq!(catalog.categories[0].name, "General");
    assert_eq!(catalog.categories[0].subcategories[0].name, "All Wallpapers");
    assert_eq!(catalog.categories[0].subcategories[0].assets[0].title, "Stray Asset");
}

#[test]
fn extracts_grouped_assets() {
    let json = document(
        r#"{
            "assets": {
                "Nature": {
                    "Mountains": [
                        {
                            "id": "summit",
                            "title": "Summit",
                            "url-4K-SDR": "https://example.com/summit.mov",
                            "description": "Sample asset"
                        }
                    ]
                }
            }
        }"#,
    );

    let catalog = parse_heuristic_catalog(&json, None).expect("catalog");
    assert_eq!(catalog.categories.len(), 1);
    assert_eq!(catalog.categories[0].name, "Nature");
    assert_eq!(catalog.categories[0].subcategories[0].name, "Mountains");
    assert_eq!(
        catalog.categories[0].subcategories[0].assets[0].title,
        "Summit"
    );
}

#[test]
fn filename_uses_asset_id() {
    let json = document(r#"{"id": "abc123", "url-4K-SDR": "https://example.com/some.mov"}"#);
    let asset = extract_asset(json.as_object().unwrap(), None).unwrap();
    assert_eq!(asset.file_name, "abc123.mov");
    assert_eq!(asset.extension, ".mov");
}

#[test]
fn resolves_labels_from_strings_bundle() {
    let strings = StringsCatalog::from_pairs(&[
        ("CitiesKey", "Cityscape"),
        ("SpaceKey", "Earth"),
        ("CityAssetKey", "City skyline"),
    ]);
    let json = document(
        r#"{
            "categories": [
                {
                    "id": "cities",
                    "localizedNameKey": "CitiesKey",
                    "subcategories": [
                        {
                            "id": "space",
                            "localizedNameKey": "SpaceKey"
                        }
                    ]
                }
            ],
            "assets": [
                {
                    "id": "asset1",
                    "localizedNameKey": "CityAssetKey",
                    "categories": [{"id": "cities"}],
                    "url-4K-SDR": "https://example.com/asset1.mov"
                }
            ]
        }"#,
    );

    let catalog = parse_structured_catalog(&json, Some(&strings)).expect("catalog");
    assert_eq!(catalog.categories[0].name, "Cityscape");
    assert_eq!(catalog.categories[0].subcategories[0].name, "Earth");
    assert_eq!(
        catalog.categories[0].subcategories[0].assets[0].title,
        "City skyline"
    );
}

#[test]
fn normalize_label_prefers_the_longest_prefix_and_replaces_underscores() {
    assert_eq!(normalize_label("AerialSeaLife"), "Sea Life");
    assert_eq!(normalize_label("Aerial"), "General");
    assert_eq!(normalize_label("big_bear_Lake"), "big bear Lake");
    assert_eq!(normalize_label("NASAView"), "NASAView");
    assert_eq!(normalize_label("  _ "), "General");
    assert_eq!(normalize_label("\u{2003}Dunes\u{a0}"), "Dunes");
}

#[test]
fn sanitize_filename_replaces_control_characters() {
    assert_eq!(sanitize_filename("a\u{7}b\u{85}c"), "a_b_c");
    assert_eq!(sanitize_filename("a\"b<c>d|e?f\\g"), "a_b_c_d_e_f_g");
    assert_eq!(sanitize_filename("__a__"), "a");
    assert_eq!(sanitize_filename("???"), "");
}

#[test]
fn sanitizing_twice_is_sanitizing_once() {
    let once = sanitize_filename("/x:y\n/");
    assert_eq!(once, "x_y");
    assert_eq!(sanitize_filename(&once), once);
}

#[test]
fn extension_from_url_follows_path_rules() {
    assert_eq!(extension_from_url("https://e.com/a.tar.gz"), ".gz");
    assert_eq!(extension_from_url("https://e.com/.hidden"), ".mov");
    assert_eq!(extension_from_url("https://e.com/a."), ".");
    assert_eq!(extension_from_url("https://e.com/dir/"), ".mov");
    assert_eq!(extension_from_url("file.mp4?x=/y.avi"), ".mp4");
    assert_eq!(extension_from_url(""), ".mov");
    assert_eq!(extension_from_url(".."), ".mov");
}

#[test]
fn pick_url_takes_any_url_key_last() {
    let json = document(r#"{"url-8K": "eight", "url-1080": "ten", "url": "  "}"#);
    assert_eq!(pick_url(json.as_object().unwrap()).unwrap(), "ten");
    let blank = document(r#"{"url-8K": ""}"#);
    assert_eq!(pick_url(blank.as_object().unwrap()).unwrap(), "");
    let number = document(r#"{"url-8K": 8}"#);
    assert!(pick_url(number.as_object().unwrap()).is_none());
}

#[test]
fn ref_id_reads_objects_and_texts() {
    let json = document(
        r#"{"a": [{"categoryID": "c"}], "b": ["t", "u"], "d": [], "e": [3], "f": "t",
            "g": [{"id": " ", "subcategoryID": "s"}]}"#,
    );
    let map = json.as_object().unwrap();
    assert_eq!(ref_id(map, "a"), Some("c".to_owned()));
    assert_eq!(ref_id(map, "b"), Some("t".to_owned()));
    assert_eq!(ref_id(map, "d"), None);
    assert_eq!(ref_id(map, "e"), None);
    assert_eq!(ref_id(map, "f"), None);
    assert_eq!(ref_id(map, "g"), Some("s".to_owned()));
    assert_eq!(ref_id(map, "z"), None);
}

#[test]
fn labels_fall_back_when_strings_are_blank() {
    let strings = StringsCatalog::from_pairs(&[("k", "  ")]);
    assert_eq!(
        resolve_label(Some(&strings), Some("k".to_owned()), Some("AerialSea".to_owned())),
        "Sea"
    );
    assert_eq!(resolve_label(Some(&strings), Some("k".to_owned()), None), "General");
    assert_eq!(resolve_label(None, Some("k".to_owned()), None), "General");
}

#[test]
fn an_asset_without_id_or_url_is_none() {
    let no_url = document(r#"{"id": "a"}"#);
    assert!(extract_asset(no_url.as_object().unwrap(), None).is_none());
    let no_id = document(r#"{"url": "https://e.com/a.mov"}"#);
    assert!(extract_asset(no_id.as_object().unwrap(), None).is_none());
}

#[test]
fn an_asset_takes_the_first_title_and_description() {
    let json = document(
        r#"{"id": "a/b", "url": "https://e.com/v.mp4", "name": "TheName", "title": " ",
            "subtitle": "below", "category": "cat"}"#,
    );
    let asset = extract_asset(json.as_object().unwrap(), None).unwrap();
    assert_eq!(asset.id, "a/b");
    assert_eq!(asset.title, "The Name");
    assert_eq!(asset.description, Some("below".to_owned()));
    assert_eq!(asset.url, "https://e.com/v.mp4");
    assert_eq!(asset.file_name, "a_b.mp4");
    assert_eq!(asset.extension, ".mp4");
}

#[test]
fn keys_are_sorted_into_metadata_and_containers() {
    assert!(is_metadata_key("assets"));
    assert!(is_metadata_key("accessibilityLabel"));
    assert!(!is_metadata_key("Nature"));
    assert!(is_container_key("items"));
    assert!(is_container_key("subcategories"));
    assert!(!is_container_key("taxonomy"));
}

#[test]
fn stray_assets_join_the_first_subcategory() {
    let json = document(
        r#"{
            "categories": [
                {"id": "c1", "name": "One", "subcategories": [{"id": "s1", "name": "Sub"}]},
                {"id": "c2", "name": "Two"}
            ],
            "assets": [
                {"id": "a", "url": "https://e.com/a.mov", "categories": ["c2"]},
                {"id": "b", "url": "https://e.com/b.mov", "subcategories": ["s1"]},
                {"id": "c", "url": "https://e.com/c.mov", "categories": ["c1"]}
            ]
        }"#,
    );
    let catalog = parse_catalog(&json, None).unwrap();
    let ids: Vec<&str> = catalog.categories[0].subcategories[0]
        .assets
        .iter()
        .map(|asset| asset.id.as_str())
        .collect();
    assert_eq!(ids, vec!["b", "c", "a"]);
    assert_eq!(catalog.categories[1].subcategories.len(), 0);
}

#[test]
fn stray_assets_open_a_subcategory_in_a_bare_category() {
    let json = document(
        r#"{"categories": [{"id": "c1"}],
            "assets": [{"id": "a", "url": "https://e.com/a.mov"}]}"#,
    );
    let catalog = parse_catalog(&json, None).unwrap();
    assert_eq!(catalog.categories[0].name, "General");
    assert_eq!(catalog.categories[0].subcategories[0].id, "all");
    assert_eq!(catalog.categories[0].subcategories[0].name, "All Wallpapers");
    assert_eq!(catalog.categories[0].subcategories[0].assets.len(), 1);
}

#[test]
fn the_last_of_equal_ids_gets_the_asset() {
    let json = document(
        r#"{"categories": [
                {"id": "c", "subcategories": [{"id": "s", "name": "first"}]},
                {"id": "c", "subcategories": [{"id": "s", "name": "second"}]}
            ],
            "assets": [{"id": "a", "url": "https://e.com/a.mov", "subcategories": ["s"]}]}"#,
    );
    let catalog = parse_catalog(&json, None).unwrap();
    assert_eq!(catalog.categories[0].subcategories[0].assets.len(), 0);
    assert_eq!(catalog.categories[1].subcategories[0].assets.len(), 1);
}

#[test]
fn a_structured_manifest_with_a_bad_entry_is_refused() {
    let bad_asset = document(r#"{"categories": [], "assets": [{"id": "a"}]}"#);
    assert!(parse_catalog(&bad_asset, None).is_none());
    let bad_category = document(r#"{"categories": ["c"], "assets": []}"#);
    assert!(parse_catalog(&bad_category, None).is_none());
    let nothing = document(r#"{"categories": [{"id": "c"}], "assets": []}"#);
    assert!(parse_catalog(&nothing, None).is_none());
}

#[test]
fn grouped_assets_keep_their_path() {
    let json = document(
        r#"{
            "Sea": {"Deep": {"Blue": [{"id": "x", "url": "https://e.com/x.mov"}]},
                    "items": [{"id": "skipped", "url": "https://e.com/skipped.mov"}]},
            "LandScape": [{"id": "y", "url": "https://e.com/y.mov"}]
        }"#,
    );
    let catalog = parse_catalog(&json, None).unwrap();
    assert_eq!(catalog.categories.len(), 2);
    assert_eq!(catalog.categories[0].id, "landscape");
    assert_eq!(catalog.categories[0].name, "Land Scape");
    assert_eq!(catalog.categories[0].subcategories[0].name, "All Wallpapers");
    assert_eq!(catalog.categories[1].id, "sea");
    assert_eq!(catalog.categories[1].subcategories.len(), 1);
    assert_eq!(catalog.categories[1].subcategories[0].id, "deep / blue");
    assert_eq!(catalog.categories[1].subcategories[0].name, "Deep / Blue");
}

#[test]
fn groups_come_as_they_are_first_seen() {
    let json = document(
        r#"[
            {"Sea": {"Reef": [{"id": "1", "url": "u"}]}},
            {"Land": {"Ice": [{"id": "2", "url": "u"}]}},
            {"Sea": {"Ice": [{"id": "3", "url": "u"}], "Reef": [{"id": "4", "url": "u"}]}},
            {"Sea": {"Deep": [{"id": "5", "url": "u"}], "Ice": [{"id": "6", "url": "u"}]}}
        ]"#,
    );
    let catalog = parse_heuristic_catalog(&json, None).unwrap();
    let groups: Vec<(&str, Vec<(&str, Vec<&str>)>)> = catalog
        .categories
        .iter()
        .map(|category| {
            let inner = category
                .subcategories
                .iter()
                .map(|group| {
                    let ids = group.assets.iter().map(|asset| asset.id.as_str()).collect();
                    (group.name.as_str(), ids)
                })
                .collect();
            (category.name.as_str(), inner)
        })
        .collect();
    assert_eq!(
        groups,
        vec![
            (
                "Sea",
                vec![("Reef", vec!["1", "4"]), ("Ice", vec!["3", "6"]), ("Deep", vec!["5"])]
            ),
            ("Land", vec![("Ice", vec!["2"])]),
        ]
    );
}

#[test]
fn a_name_that_is_not_its_own_label_opens_a_group_each_time() {
    let json = document(
        r#"{"Sea": {"AerialReef": [{"id": "1", "url": "u"}, {"id": "2", "url": "u"}]}}"#,
    );
    let catalog = parse_heuristic_catalog(&json, None).unwrap();
    let groups = &catalog.categories[0].subcategories;
    assert_eq!(groups.len(), 2);
    assert!(groups.iter().all(|group| group.name == "Reef" && group.assets.len() == 1));
}

#[test]
fn lower_case_follows_unicode() {
    let json = document(r#"{"ÄÖ": [{"id": "x", "url": "https://e.com/x.mov"}]}"#);
    let catalog = parse_catalog(&json, None).unwrap();
    assert_eq!(catalog.categories[0].id, "äö");
    assert_eq!(catalog.categories[0].name, "ÄÖ");
}

#[test]
fn a_grouped_manifest_at_the_top_is_general() {
    let json = document(r#"[{"id": "x", "url": "https://e.com/x.mov"}]"#);
    let catalog = parse_catalog(&json, None).unwrap();
    assert_eq!(catalog.categories[0].name, "General");
    assert_eq!(catalog.categories[0].id, "general");
}

#[test]
fn every_asset_of_a_manifest_is_held_once() {
    let json = document(
        r#"{"categories": [{"id": "c", "subcategories": [{"id": "s"}, {"id": "t"}]}],
            "assets": [
                {"id": "a", "url": "u", "subcategories": ["t"]},
                {"id": "b", "url": "u", "subcategories": ["s"]},
                {"id": "a", "url": "u", "subcategories": ["nowhere"]}
            ]}"#,
    );
    let catalog = parse_catalog(&json, None).unwrap();
    let mut ids: Vec<String> = Vec::new();
    for category in &catalog.categories {
        for subcategory in &category.subcategories {
            for asset in &subcategory.assets {
                ids.push(asset.id.clone());
            }
        }
    }
    ids.sort();
    assert_eq!(ids, vec!["a", "a", "b"]);
}

#[test]
fn loading_reports_each_error() {
    let io = load_manifest(Err("no such file".to_owned()), None).unwrap_err();
    assert!(matches!(&io, ManifestError::Io(words) if words == "no such file"));
    assert_eq!(io.message(), "failed to read manifest: no such file");

    let json = load_manifest(Ok("{".to_owned()), None).unwrap_err();
    assert!(matches!(&json, ManifestError::Json(_)));
    assert_eq!(
        json.message(),
        "failed to parse manifest JSON: EOF while parsing an object at line 1 column 1"
    );

    let empty = load_manifest(Ok("{}".to_owned()), None).unwrap_err();
    assert!(matches!(empty, ManifestError::Empty));
    assert_eq!(
        empty.message(),
        "manifest did not contain any downloadable assets"
    );
}

#[test]
fn loading_gives_the_catalog() {
    let raw = r#"{"Sea": [{"id": "x", "url": "https://e.com/x.mov"}]}"#;
    let catalog = load_manifest(Ok(raw.to_owned()), None).unwrap();
    assert_eq!(catalog.categories[0].subcategories[0].assets[0].file_name, "x.mov");
}

#[test]
fn documents_keep_their_values_and_sort_their_keys() {
    let json = document(r#"{"b": null, "a": [true, "t", 1.5], "a": "last"}"#);
    let members = json.as_object().unwrap();
    assert_eq!(members.len(), 2);
    assert_eq!(members[0].0, "a");
    assert_eq!(members[0].1.as_str(), Some("last"));
    assert_eq!(members[1].0, "b");
    assert!(matches!(members[1].1, Json::Null));
    let list = document(r#"[true, "t", 1.5, {}]"#);
    let items = list.as_array().unwrap();
    assert!(matches!(items[0], Json::Bool(true)));
    assert_eq!(items[1].as_str(), Some("t"));
    assert!(matches!(items[2], Json::Number));
    assert!(items[3].as_object().unwrap().is_empty());
    assert!(list.get("x").is_none());
}

#[test]
fn asset_files_hold_no_slash() {
    let json = document(r#"{"id": "../up/", "url": "https://e.com/a.b/c?d=e/f"}"#);
    let asset = extract_asset(json.as_object().unwrap(), None).unwrap();
    assert_eq!(asset.file_name, ".._up.mov");
    assert_eq!(asset.extension, ".mov");
}

#[test]
fn every_container_key_is_a_metadata_key() {
    for key in ["assets", "items", "children", "entries", "data", "categories", "subcategories"] {
        assert!(is_container_key(key));
        assert!(is_metadata_key(key));
    }
}
