use awm::locate::{
    current_locale_code, default_manifest_candidates, default_output_dir, home_join,
    is_manifest_name, is_user_manifest, legacy_idleassetsd_base, locate_manifest,
    manifest_base_dir, manifest_candidates, resolve_manifest_path, resolve_strings_path,
    strings_candidates_for_manifest, system_locale, user_aerials_base, user_aerials_base_in,
    Found, LocateError, ManifestFacts,
};
use awm::paths::{extend_path, join_path, split_path};

const BASE: &str = "/home/u/Library/Application Support/com.apple.wallpaper/aerials";

/// The bytes of a text.
fn bytes(text: &str) -> Vec<u8> {
    text.as_bytes().to_vec()
}

/// A directory of wallpapers below a home directory that is not Unicode.
fn odd_base(last: u8) -> Vec<u8> {
    user_aerials_base_in(&Some(vec![b'/', b'h', last]))
}

fn facts(is_file: bool, is_dir: bool, holds_entries: bool, siblings: &[&str]) -> ManifestFacts {
    ManifestFacts {
        is_file,
        is_dir,
        holds_entries,
        siblings: siblings.iter().map(|name| bytes(name)).collect(),
    }
}

#[test]
fn names_join_to_paths() {
    assert_eq!(join_path("/a", "b"), "/a/b");
    assert_eq!(join_path("/a/", "b"), "/a/b");
    assert_eq!(join_path("", "b"), "b");
    assert_eq!(join_path("/a", "/b"), "/b");
    assert_eq!(extend_path(b"/a", "b"), b"/a/b");
    assert_eq!(extend_path(b"/a/", "\u{e4}"), b"/a/\xc3\xa4");
    assert_eq!(extend_path(b"", "b"), b"b");
    assert_eq!(extend_path(b"/\xff", "/b"), b"/b");
    assert_eq!(split_path(&extend_path(b"x/./\xff", "z")).names, vec![b"x", b"\xff", b"z"]);
}

#[test]
fn the_user_base_is_below_home() {
    assert_eq!(user_aerials_base_in(&Some(bytes("/home/u"))), bytes(BASE));
    assert_eq!(
        user_aerials_base_in(&None),
        b"./Library/Application Support/com.apple.wallpaper/aerials"
    );
    assert_eq!(home_join(&None, &["x"]), b"./x");
    let base = user_aerials_base();
    assert!(base.ends_with(b"/Library/Application Support/com.apple.wallpaper/aerials"));
    let home = dirs::home_dir().map(|home| home.into_os_string().into_encoded_bytes());
    assert_eq!(base, user_aerials_base_in(&home));
}

#[test]
fn a_home_need_not_be_unicode() {
    let base = odd_base(0xff);
    assert_eq!(
        base,
        b"/h\xff/Library/Application Support/com.apple.wallpaper/aerials"
    );
    let first = default_manifest_candidates(&base).remove(0);
    assert!(is_user_manifest(&first, false, &base));
    assert_eq!(default_output_dir(&first, false, &base), extend_path(&base, "videos"));
    let error =
        resolve_manifest_path(&vec![b"/h\xff".to_vec()], &vec![facts(false, false, false, &[])])
            .unwrap_err();
    assert_eq!(error.message(), "manifest file was not found. tried: /h\u{fffd}");
}

#[test]
fn homes_that_are_shown_alike_are_told_apart() {
    let first = default_manifest_candidates(&odd_base(0xff)).remove(0);
    assert!(!is_user_manifest(&first, false, &odd_base(0xfe)));
    assert!(!is_user_manifest(&first, false, &user_aerials_base_in(&Some(bytes("/h\u{fffd}")))));
    assert_eq!(
        default_output_dir(&first, false, &odd_base(0xfe)),
        b"/Library/Application Support/com.apple.idleassetsd/Customer/4KSDR240FPS"
    );
}

#[test]
fn manifests_are_looked_for_at_two_places() {
    assert_eq!(
        default_manifest_candidates(BASE.as_bytes()),
        vec![
            bytes(&format!("{BASE}/manifest/entries.json")),
            bytes("/Library/Application Support/com.apple.idleassetsd/Customer/entries.json"),
        ]
    );
    assert_eq!(manifest_candidates(Some(bytes("m")), BASE.as_bytes()), vec![b"m"]);
    assert_eq!(manifest_candidates(None, BASE.as_bytes()).len(), 2);
}

#[test]
fn the_base_of_a_manifest_skips_its_directory() {
    let base = manifest_base_dir(b"/a/b/manifest/entries.json", false).unwrap();
    assert_eq!(base.names, vec![b"a", b"b"]);
    let beside = manifest_base_dir(b"/a/b/entries.json", false).unwrap();
    assert_eq!(beside.names, vec![b"a", b"b"]);
    let itself = manifest_base_dir(b"/a/b/manifest", true).unwrap();
    assert_eq!(itself.names, vec![bytes("a"), bytes("b"), bytes("manifest")]);
    assert!(manifest_base_dir(b"/", false).is_none());
    assert!(manifest_base_dir(b"", false).is_none());
}

#[test]
fn the_first_manifest_is_the_users() {
    let candidates = default_manifest_candidates(BASE.as_bytes());
    assert!(is_user_manifest(&candidates[0], false, BASE.as_bytes()));
    assert!(!is_user_manifest(&candidates[1], false, BASE.as_bytes()));
    assert!(is_user_manifest(&bytes(&format!("{BASE}//entries.json")), false, BASE.as_bytes()));
    assert!(is_user_manifest(BASE.as_bytes(), true, BASE.as_bytes()));
    assert!(!is_user_manifest(b"/", false, BASE.as_bytes()));
}

#[test]
fn downloads_go_where_the_manifest_says() {
    assert_eq!(
        default_output_dir(
            &bytes(&format!("{BASE}/manifest/entries.json")),
            false,
            BASE.as_bytes()
        ),
        bytes(&format!("{BASE}/videos"))
    );
    assert_eq!(
        default_output_dir(b"/elsewhere/entries.json", false, BASE.as_bytes()),
        b"/Library/Application Support/com.apple.idleassetsd/Customer/4KSDR240FPS"
    );
    assert_eq!(
        legacy_idleassetsd_base(),
        b"/Library/Application Support/com.apple.idleassetsd"
    );
}

#[test]
fn strings_are_looked_for_by_language() {
    let user = bytes(&format!("{BASE}/manifest/entries.json"));
    assert_eq!(
        strings_candidates_for_manifest(&user, false, BASE.as_bytes(), "de"),
        vec![
            bytes(&format!(
                "{BASE}/manifest/TVIdleScreenStrings.bundle/Contents/Resources/\
                 Localizable.nocache.loctable"
            )),
            bytes(&format!(
                "{BASE}/manifest/TVIdleScreenStrings.bundle/de.lproj/\
                 Localizable.nocache.strings"
            )),
        ]
    );
    assert_eq!(
        strings_candidates_for_manifest(b"/m.json", false, BASE.as_bytes(), "fr"),
        vec![bytes(
            "/Library/Application Support/com.apple.idleassetsd/Customer/\
             TVIdleScreenStrings.bundle/fr.lproj/Localizable.nocache.strings"
        )]
    );
}

#[test]
fn the_language_comes_from_the_environment_first() {
    let env = Some(" de_DE ".to_owned());
    let system = Some("fr_FR\n".to_owned());
    assert_eq!(current_locale_code(&env, &system), "de");
    assert_eq!(current_locale_code(&None, &system), "fr");
    assert_eq!(current_locale_code(&Some("x".to_owned()), &system), "fr");
    assert_eq!(current_locale_code(&Some("é".to_owned()), &system), "é");
    assert_eq!(current_locale_code(&None, &Some(" ".to_owned())), "en");
    assert_eq!(current_locale_code(&None, &None), "en");
}

#[test]
fn the_system_locale_is_text_of_a_success() {
    assert_eq!(system_locale(true, b"de_DE\n".to_vec()), Some("de_DE\n".to_owned()));
    assert_eq!(system_locale(false, b"de_DE\n".to_vec()), None);
    assert_eq!(system_locale(true, vec![0xff]), None);
}

#[test]
fn manifest_names_have_entries_and_json() {
    assert!(is_manifest_name(b"my-entries-2.JSON"));
    assert!(!is_manifest_name(b"Entries.json"));
    assert!(!is_manifest_name(b"entries.txt"));
    assert!(!is_manifest_name(b"entries"));
    assert!(is_manifest_name(b"\xc3\xa4-entries.json"));
    assert!(!is_manifest_name(b"\xff-entries.json"));
}

#[test]
fn a_manifest_is_found_itself_inside_or_beside() {
    assert_eq!(locate_manifest(&facts(true, false, false, &[])), Some(Found::Itself));
    assert_eq!(
        locate_manifest(&facts(false, true, true, &["entries.json"])),
        Some(Found::Entries)
    );
    assert_eq!(
        locate_manifest(&facts(false, true, false, &["a", "old-entries.json", "entries.json"])),
        Some(Found::Sibling(1))
    );
    assert_eq!(locate_manifest(&facts(false, false, false, &["a"])), None);
}

#[test]
fn the_first_candidate_with_a_manifest_wins() {
    let candidates = vec![bytes("one"), bytes("two")];
    let none = facts(false, false, false, &[]);
    let itself = facts(true, false, false, &[]);
    assert_eq!(
        resolve_manifest_path(&candidates, &vec![none, itself]).unwrap(),
        (1, Found::Itself)
    );
    let error = resolve_manifest_path(
        &candidates,
        &vec![facts(false, false, false, &[]), facts(false, false, false, &[])],
    )
    .unwrap_err();
    assert!(matches!(&error, LocateError::ManifestNotFound(tried) if tried == "one, two"));
    assert_eq!(error.message(), "manifest file was not found. tried: one, two");
}

#[test]
fn the_first_candidate_with_strings_wins() {
    let candidates = vec![bytes("one"), bytes("two")];
    assert_eq!(resolve_strings_path(&candidates, &vec![false, true]).unwrap(), 1);
    let error = resolve_strings_path(&candidates, &vec![false, false]).unwrap_err();
    assert!(matches!(&error, LocateError::StringsNotFound(tried) if tried == "one, two"));
    assert_eq!(error.message(), "strings file was not found. tried: one, two");
}

#[test]
fn an_explicit_place_is_the_only_one_tried() {
    let candidates = manifest_candidates(Some(bytes("/m")), BASE.as_bytes());
    let error =
        resolve_manifest_path(&candidates, &vec![facts(false, true, false, &["x.json"])])
            .unwrap_err();
    assert_eq!(error.message(), "manifest file was not found. tried: /m");
}
