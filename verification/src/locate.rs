//! Where the manifest, its strings and the downloads are.
//!
//! What is on the disk is told by the caller.

use vstd::prelude::*;

use crate::paths;
use crate::paths::{copy_bytes, extend_path, extend_path_by, extension_is, same_bytes};
use crate::paths::{show_paths, split_path, PathParts};
use crate::text;

verus! {

// ---------------------------------------------------------------------------------------------
// Base directories
// ---------------------------------------------------------------------------------------------
/// Asks [`dirs::home_dir`] for the home directory of the user, and takes the bytes of the path.
/// What it answers rests on the environment and the user database of the machine, so nothing is
/// claimed of it.
#[verifier::external_body]
fn home_dir() -> (home: Option<Vec<u8>>) {
    match dirs::home_dir() {
        Some(path) => Some(path.into_os_string().into_encoded_bytes()),
        None => None,
    }
}

/// A path below the home directory, or below the current one where there is no home.
pub open spec fn below_home(home: Option<Seq<u8>>, names: Seq<Seq<char>>) -> Seq<u8> {
    paths::extended_by(
        match home {
            Some(home) => home,
            None => paths::here(),
        },
        names,
    )
}

/// Joins names to the home directory, or to the current one where there is no home.
pub fn home_join(home: &Option<Vec<u8>>, names: &[&str]) -> (path: Vec<u8>)
    ensures
        path@ == below_home(paths::path_option(*home), text::words(names@)),
{
    match home {
        Some(home) => extend_path_by(home.as_slice(), names),
        None => {
            let mut here: Vec<u8> = Vec::new();
            here.push(paths::DOT);
            assert(here@ =~= paths::here());
            extend_path_by(here.as_slice(), names)
        },
    }
}

/// The directory of the user's wallpapers, below a home directory.
pub open spec fn aerials_base(home: Option<Seq<u8>>) -> Seq<u8> {
    below_home(
        home,
        seq!["Library"@, "Application Support"@, "com.apple.wallpaper"@, "aerials"@],
    )
}

/// The directory of the user's wallpapers, given the home directory.
pub fn user_aerials_base_in(home: &Option<Vec<u8>>) -> (base: Vec<u8>)
    ensures
        base@ == aerials_base(paths::path_option(*home)),
{
    let names = ["Library", "Application Support", "com.apple.wallpaper", "aerials"];
    assert(text::words(names@) =~= seq![
        "Library"@,
        "Application Support"@,
        "com.apple.wallpaper"@,
        "aerials"@,
    ]);
    home_join(home, &names)
}

/// The directory of the user's wallpapers, below whatever home directory the machine gives.
pub fn user_aerials_base() -> (base: Vec<u8>)
    ensures
        exists|home: Option<Seq<u8>>| base@ == #[trigger] aerials_base(home),
{
    let home = home_dir();
    user_aerials_base_in(&home)
}

/// The directory of the wallpapers that all users share.
pub open spec fn shared_base() -> Seq<u8> {
    paths::bytes_of("/Library/Application Support/com.apple.idleassetsd"@)
}

/// Gives the directory of the wallpapers that all users share.
pub fn legacy_idleassetsd_base() -> (base: Vec<u8>)
    ensures
        base@ == shared_base(),
{
    copy_bytes("/Library/Application Support/com.apple.idleassetsd".as_bytes())
}

// ---------------------------------------------------------------------------------------------
// The manifest
// ---------------------------------------------------------------------------------------------
/// Where a manifest is looked for, in this order.
pub open spec fn manifest_places(user_base: Seq<u8>) -> Seq<Seq<u8>> {
    seq![
        paths::extended_by(user_base, seq!["manifest"@, "entries.json"@]),
        paths::extended_by(
            shared_base(),
            seq!["Customer"@, "entries.json"@],
        ),
    ]
}

/// Lists where a manifest is looked for, given the directory of the user's wallpapers.
pub fn default_manifest_candidates(user_base: &[u8]) -> (candidates: Vec<Vec<u8>>)
    ensures
        paths::contents(candidates@) == manifest_places(user_base@),
{
    let user_names = ["manifest", "entries.json"];
    assert(text::words(user_names@) =~= seq!["manifest"@, "entries.json"@]);
    let shared_names = ["Customer", "entries.json"];
    assert(text::words(shared_names@) =~= seq!["Customer"@, "entries.json"@]);
    let mut candidates: Vec<Vec<u8>> = Vec::new();
    candidates.push(extend_path_by(user_base, &user_names));
    candidates.push(extend_path_by(legacy_idleassetsd_base().as_slice(), &shared_names));
    assert(paths::contents(candidates@) =~= manifest_places(user_base@));
    candidates
}

/// What is on the disk at and beside a place where a manifest may be.
#[derive(Debug)]
pub struct ManifestFacts {
    /// There is a file.
    pub is_file: bool,
    /// There is a directory.
    pub is_dir: bool,
    /// There is a file `entries.json` in that directory.
    pub holds_entries: bool,
    /// The names in the directory that the place is in, in the order in which they are read.
    pub siblings: Vec<Vec<u8>>,
}

/// Where a manifest was found.
#[derive(Debug, Clone, Copy, PartialEq, Eq, Structural)]
pub enum Found {
    /// At the place itself.
    Itself,
    /// As `entries.json` in the directory at the place.
    Entries,
    /// Beside the place, under the name with this number.
    Sibling(usize),
}

/// Whether a name may be that of a manifest: it is text with `entries` in it, and has the extension
/// `json`, in whatever case.
pub open spec fn manifest_name(name: Seq<u8>) -> bool {
    &&& paths::has_extension(name, "json"@)
    &&& match paths::final_name(paths::parts_of(name)) {
        Some(last) => vstd::utf8::valid_utf8(last) && text::has_part(
            vstd::utf8::decode_utf8(last),
            "entries"@,
        ),
        None => false,
    }
}

/// Tells whether a name may be that of a manifest.
pub fn is_manifest_name(name: &[u8]) -> (is: bool)
    ensures
        is == manifest_name(name@),
{
    if !extension_is(name, "json") {
        return false;
    }
    let parts = split_path(name);
    match parts.file_name() {
        Some(last) => match text::utf8_text(copy_bytes(last.as_slice())) {
            Ok(words) => text::contains(words.as_str(), "entries"),
            Err(_) => false,
        },
        None => false,
    }
}

/// The first of the names, from a number on, that may be that of a manifest.
pub open spec fn first_manifest_name(names: Seq<Seq<u8>>, from: int) -> Option<usize>
    decreases names.len() - from,
{
    if from >= names.len() {
        None
    } else if manifest_name(names[from]) {
        Some(from as usize)
    } else {
        first_manifest_name(names, from + 1)
    }
}

/// Where the manifest is, given what is on the disk: at the place, in the directory there, or
/// beside it.
pub open spec fn located(facts: ManifestFacts) -> Option<Found> {
    if facts.is_file {
        Some(Found::Itself)
    } else if facts.is_dir && facts.holds_entries {
        Some(Found::Entries)
    } else {
        match first_manifest_name(paths::contents(facts.siblings@), 0) {
            Some(i) => Some(Found::Sibling(i)),
            None => None,
        }
    }
}

/// Finds the manifest, given what is on the disk.
pub fn locate_manifest(facts: &ManifestFacts) -> (found: Option<Found>)
    ensures
        found == located(*facts),
{
    if facts.is_file {
        return Some(Found::Itself);
    }
    if facts.is_dir && facts.holds_entries {
        return Some(Found::Entries);
    }
    let ghost names = paths::contents(facts.siblings@);
    let mut i: usize = 0;
    while i < facts.siblings.len()
        invariant
            i <= facts.siblings.len(),
            !facts.is_file && !(facts.is_dir && facts.holds_entries),
            names == paths::contents(facts.siblings@),
            first_manifest_name(names, 0) == first_manifest_name(names, i as int),
        decreases facts.siblings.len() - i,
    {
        if is_manifest_name(facts.siblings[i].as_slice()) {
            return Some(Found::Sibling(i));
        }
        i = i + 1;
    }
    None
}

/// Why a file was not found: none of the places named has it.
#[derive(Debug)]
pub enum LocateError {
    ManifestNotFound(String),
    StringsNotFound(String),
}

impl LocateError {
    /// The error in words.
    pub fn message(&self) -> (words: String)
        ensures
            words@ == match self {
                LocateError::ManifestNotFound(tried) => {
                    "manifest file was not found. tried: "@ + tried@
                },
                LocateError::StringsNotFound(tried) => {
                    "strings file was not found. tried: "@ + tried@
                },
            },
    {
        match self {
            LocateError::ManifestNotFound(tried) => {
                let mut words = "manifest file was not found. tried: ".to_owned();
                words.append(tried.as_str());
                words
            },
            LocateError::StringsNotFound(tried) => {
                let mut words = "strings file was not found. tried: ".to_owned();
                words.append(tried.as_str());
                words
            },
        }
    }
}

/// Lists where the manifest is looked for: only at the place that was asked for, if one was.
pub fn manifest_candidates(explicit: Option<Vec<u8>>, user_base: &[u8]) -> (candidates: Vec<
    Vec<u8>,
>)
    ensures
        paths::contents(candidates@) == match explicit {
            Some(place) => seq![place@],
            None => manifest_places(user_base@),
        },
{
    match explicit {
        Some(place) => {
            let mut candidates: Vec<Vec<u8>> = Vec::new();
            candidates.push(place);
            assert(paths::contents(candidates@) =~= seq![place@]);
            candidates
        },
        None => default_manifest_candidates(user_base),
    }
}

/// Finds the manifest at the first of the candidates that has one: the number of the candidate,
/// and where it was found there.
pub fn resolve_manifest_path(
    candidates: &Vec<Vec<u8>>,
    facts: &Vec<ManifestFacts>,
) -> (resolved: Result<(usize, Found), LocateError>)
    requires
        candidates.len() == facts.len(),
    ensures
        match resolved {
            Ok((i, found)) => {
                &&& i < facts.len()
                &&& located(facts@[i as int]) == Some(found)
                &&& forall|k: int| 0 <= k < i ==> located(#[trigger] facts@[k]) is None
            },
            Err(error) => {
                &&& forall|k: int| 0 <= k < facts.len() ==> located(#[trigger] facts@[k]) is None
                &&& error matches LocateError::ManifestNotFound(tried)
                &&& tried@ == text::joined(paths::shown(paths::contents(candidates@)), ", "@)
            },
        },
{
    let mut i: usize = 0;
    while i < facts.len()
        invariant
            i <= facts.len(),
            forall|k: int| 0 <= k < i ==> located(#[trigger] facts@[k]) is None,
        decreases facts.len() - i,
    {
        if let Some(found) = locate_manifest(&facts[i]) {
            return Ok((i, found));
        }
        i = i + 1;
    }
    let texts = show_paths(candidates);
    let tried = text::join_from(&texts, 0, ", ");
    assert(text::texts(texts@).skip(0) =~= text::texts(texts@));
    Err(LocateError::ManifestNotFound(tried))
}

// ---------------------------------------------------------------------------------------------
// What belongs to a manifest
// ---------------------------------------------------------------------------------------------
/// The directory that a manifest belongs to: the one it is, or the one it is in, leaving out one
/// that is called `manifest`.
pub open spec fn base_dir(path: Seq<u8>, is_dir: bool) -> Option<paths::Parts> {
    if is_dir {
        Some(paths::parts_of(path))
    } else {
        match paths::parent(paths::parts_of(path)) {
            Some(up) => if paths::final_name(up) == Some(paths::bytes_of("manifest"@)) {
                paths::parent(up)
            } else {
                Some(up)
            },
            None => None,
        }
    }
}

/// The content of optional parts.
pub open spec fn parts_option(parts: Option<PathParts>) -> Option<paths::Parts> {
    match parts {
        Some(parts) => Some(parts@),
        None => None,
    }
}

/// Finds the directory that a manifest belongs to.
pub fn manifest_base_dir(path: &[u8], is_dir: bool) -> (base: Option<PathParts>)
    ensures
        parts_option(base) == base_dir(path@, is_dir),
{
    let parts = split_path(path);
    if is_dir {
        return Some(parts);
    }
    match parts.into_parent() {
        Some(up) => {
            let under_manifest = match up.file_name() {
                Some(name) => same_bytes(name.as_slice(), "manifest".as_bytes()),
                None => false,
            };
            if under_manifest {
                up.into_parent()
            } else {
                Some(up)
            }
        },
        None => None,
    }
}

/// Whether a manifest belongs to the directory of the user's wallpapers.
pub open spec fn of_user(path: Seq<u8>, is_dir: bool, user_base: Seq<u8>) -> bool {
    base_dir(path, is_dir) == Some(paths::parts_of(user_base))
}

/// Tells whether a manifest belongs to the directory of the user's wallpapers.
pub fn is_user_manifest(path: &[u8], is_dir: bool, user_base: &[u8]) -> (is: bool)
    ensures
        is == of_user(path@, is_dir, user_base@),
{
    match manifest_base_dir(path, is_dir) {
        Some(base) => base.same_as(&split_path(user_base)),
        None => false,
    }
}

/// The bytes of an ASCII text that has no slash and is longer than `..` can name a file.
proof fn lemma_plain(name: Seq<char>)
    requires
        vstd::utf8::is_ascii_chars(name),
        name.len() > 2,
        !name.contains('/'),
    ensures
        paths::plain_name(paths::bytes_of(name)),
        paths::bytes_of(name).len() == name.len(),
{
    vstd::utf8::is_ascii_chars_encode_utf8(name);
    let bytes = paths::bytes_of(name);
    if bytes.contains(paths::SLASH) {
        let i = choose|i: int| 0 <= i < bytes.len() && bytes[i] == paths::SLASH;
        assert(name[i] == '/');
    }
    assert(paths::here().len() == 1);
}

/// The manifest that is looked for first belongs to the directory of the user's wallpapers.
pub proof fn law_first_manifest_is_the_users(user_base: Seq<u8>)
    ensures
        of_user(manifest_places(user_base)[0], false, user_base),
{
    reveal_strlit("manifest");
    reveal_strlit("entries.json");
    let names = seq!["manifest"@, "entries.json"@];
    let first = paths::bytes_of("manifest"@);
    let second = paths::bytes_of("entries.json"@);
    let dir = paths::extended(user_base, first);
    reveal_with_fuel(paths::extended_by, 3);
    assert(names.drop_last() =~= seq!["manifest"@]);
    assert(names.drop_last().drop_last() =~= Seq::<Seq<char>>::empty());
    assert(manifest_places(user_base)[0] == paths::extended(dir, second));
    lemma_plain("manifest"@);
    lemma_plain("entries.json"@);
    assert(paths::above().len() == 2);
    paths::law_joining_adds_a_name(user_base, first);
    paths::law_joining_adds_a_name(dir, second);
    let base = paths::parts_of(user_base);
    let parts = paths::parts_of(manifest_places(user_base)[0]);
    let up = paths::parent(parts)->0;
    assert(up.names =~= base.names.push(first));
    assert(paths::parent(up)->0.names =~= base.names);
}

/// A manifest belongs to two directories of users' wallpapers only where they have the same names,
/// byte for byte.
pub proof fn law_users_with_one_manifest_are_the_same(
    path: Seq<u8>,
    is_dir: bool,
    left: Seq<u8>,
    right: Seq<u8>,
)
    requires
        of_user(path, is_dir, left),
        of_user(path, is_dir, right),
    ensures
        paths::parts_of(left) == paths::parts_of(right),
{
}

/// The directory for the downloads that goes with a manifest.
pub open spec fn output_place(path: Seq<u8>, is_dir: bool, user_base: Seq<u8>) -> Seq<u8> {
    if of_user(path, is_dir, user_base) {
        paths::extended(user_base, paths::bytes_of("videos"@))
    } else {
        paths::extended_by(
            shared_base(),
            seq!["Customer"@, "4KSDR240FPS"@],
        )
    }
}

/// Finds the directory for the downloads that goes with a manifest.
pub fn default_output_dir(path: &[u8], is_dir: bool, user_base: &[u8]) -> (dir: Vec<u8>)
    ensures
        dir@ == output_place(path@, is_dir, user_base@),
{
    if is_user_manifest(path, is_dir, user_base) {
        extend_path(user_base, "videos")
    } else {
        let names = ["Customer", "4KSDR240FPS"];
        assert(text::words(names@) =~= seq!["Customer"@, "4KSDR240FPS"@]);
        extend_path_by(legacy_idleassetsd_base().as_slice(), &names)
    }
}

// ---------------------------------------------------------------------------------------------
// The strings
// ---------------------------------------------------------------------------------------------
/// The first two letters of a locale, unless it is shorter than two bytes.
pub open spec fn locale_letters(locale: Seq<char>) -> Option<Seq<char>> {
    let code = text::trim(locale);
    if code.len() >= 2 || (code.len() == 1 && code[0] as u32 >= 128) {
        Some(text::front(code, 2))
    } else {
        None
    }
}

/// Cuts a locale to its first two letters.
pub fn locale_front(locale: &str) -> (letters: Option<String>)
    ensures
        text::text_option(letters) == locale_letters(locale@),
{
    let code = locale.trim();
    let chars = text::chars_of(code);
    if chars.len() >= 2 || (chars.len() == 1 && chars[0] as u32 >= 128) {
        Some(text::cut_front(code, 2))
    } else {
        None
    }
}

/// The locale that the system reports: the text that a program wrote, if it succeeded and wrote
/// text.
pub fn system_locale(success: bool, stdout: Vec<u8>) -> (locale: Option<String>)
    ensures
        text::text_option(locale) == if success && vstd::utf8::valid_utf8(stdout@) {
            Some(vstd::utf8::decode_utf8(stdout@))
        } else {
            None
        },
{
    if !success {
        return None;
    }
    match text::utf8_text(stdout) {
        Ok(locale) => Some(locale),
        Err(_) => None,
    }
}

/// The letters for the language: those of the locale in the environment, else those that the
/// system reports, else `en`.
pub open spec fn language_letters(
    environment: Option<Seq<char>>,
    system: Option<Seq<char>>,
) -> Seq<char> {
    match environment {
        Some(locale) if locale_letters(locale) is Some => locale_letters(locale)->0,
        _ => match system {
            Some(locale) if locale_letters(locale) is Some => locale_letters(locale)->0,
            _ => "en"@,
        },
    }
}

/// Finds the letters for the language, given the locale in the environment and the one that the
/// system reports.
pub fn current_locale_code(environment: &Option<String>, system: &Option<String>) -> (code: String)
    ensures
        code@ == language_letters(text::text_option(*environment), text::text_option(*system)),
{
    if let Some(locale) = environment {
        if let Some(letters) = locale_front(locale.as_str()) {
            return letters;
        }
    }
    if let Some(locale) = system {
        if let Some(letters) = locale_front(locale.as_str()) {
            return letters;
        }
    }
    "en".to_owned()
}

/// Where the strings that go with a manifest are looked for, in this order: for a manifest of the
/// user, a table of all languages comes before the strings of one.
pub open spec fn strings_places(
    path: Seq<u8>,
    is_dir: bool,
    user_base: Seq<u8>,
    code: Seq<char>,
) -> Seq<Seq<u8>> {
    if of_user(path, is_dir, user_base) {
        let bundle = paths::extended_by(
            user_base,
            seq!["manifest"@, "TVIdleScreenStrings.bundle"@],
        );
        seq![
            paths::extended_by(
                bundle,
                seq!["Contents"@, "Resources"@, "Localizable.nocache.loctable"@],
            ),
            paths::extended_by(
                bundle,
                seq![code + ".lproj"@, "Localizable.nocache.strings"@],
            ),
        ]
    } else {
        let bundle = paths::extended_by(
            shared_base(),
            seq!["Customer"@, "TVIdleScreenStrings.bundle"@],
        );
        seq![
            paths::extended_by(
                bundle,
                seq![code + ".lproj"@, "Localizable.nocache.strings"@],
            ),
        ]
    }
}

/// The strings of one language in a bundle.
fn language_strings(bundle: &[u8], code: &str) -> (path: Vec<u8>)
    ensures
        path@ == paths::extended_by(
            bundle@,
            seq![code@ + ".lproj"@, "Localizable.nocache.strings"@],
        ),
{
    let mut directory = code.to_owned();
    directory.append(".lproj");
    let names = [directory.as_str(), "Localizable.nocache.strings"];
    assert(text::words(names@) =~= seq![code@ + ".lproj"@, "Localizable.nocache.strings"@]);
    extend_path_by(bundle, &names)
}

/// Lists where the strings that go with a manifest are looked for.
pub fn strings_candidates_for_manifest(
    path: &[u8],
    is_dir: bool,
    user_base: &[u8],
    code: &str,
) -> (candidates: Vec<Vec<u8>>)
    ensures
        paths::contents(candidates@) == strings_places(path@, is_dir, user_base@, code@),
{
    let mut candidates: Vec<Vec<u8>> = Vec::new();
    if is_user_manifest(path, is_dir, user_base) {
        let bundle_names = ["manifest", "TVIdleScreenStrings.bundle"];
        assert(text::words(bundle_names@) =~= seq!["manifest"@, "TVIdleScreenStrings.bundle"@]);
        let bundle = extend_path_by(user_base, &bundle_names);
        let table_names = ["Contents", "Resources", "Localizable.nocache.loctable"];
        assert(text::words(table_names@) =~= seq![
            "Contents"@,
            "Resources"@,
            "Localizable.nocache.loctable"@,
        ]);
        candidates.push(extend_path_by(bundle.as_slice(), &table_names));
        candidates.push(language_strings(bundle.as_slice(), code));
    } else {
        let bundle_names = ["Customer", "TVIdleScreenStrings.bundle"];
        assert(text::words(bundle_names@) =~= seq!["Customer"@, "TVIdleScreenStrings.bundle"@]);
        let bundle = extend_path_by(legacy_idleassetsd_base().as_slice(), &bundle_names);
        candidates.push(language_strings(bundle.as_slice(), code));
    }
    assert(paths::contents(candidates@) =~= strings_places(path@, is_dir, user_base@, code@));
    candidates
}

/// Finds the strings at the first of the candidates where there is a file.
pub fn resolve_strings_path(candidates: &Vec<Vec<u8>>, files: &Vec<bool>) -> (resolved: Result<
    usize,
    LocateError,
>)
    requires
        candidates.len() == files.len(),
    ensures
        match resolved {
            Ok(i) => {
                &&& i < files.len()
                &&& files@[i as int]
                &&& forall|k: int| 0 <= k < i ==> !#[trigger] files@[k]
            },
            Err(error) => {
                &&& forall|k: int| 0 <= k < files.len() ==> !#[trigger] files@[k]
                &&& error matches LocateError::StringsNotFound(tried)
                &&& tried@ == text::joined(paths::shown(paths::contents(candidates@)), ", "@)
            },
        },
{
    let mut i: usize = 0;
    while i < files.len()
        invariant
            i <= files.len(),
            forall|k: int| 0 <= k < i ==> !#[trigger] files@[k],
        decreases files.len() - i,
    {
        if files[i] {
            return Ok(i);
        }
        i = i + 1;
    }
    let texts = show_paths(candidates);
    let tried = text::join_from(&texts, 0, ", ");
    assert(text::texts(texts@).skip(0) =~= text::texts(texts@));
    Err(LocateError::StringsNotFound(tried))
}

// ---------------------------------------------------------------------------------------------
// What is looked for where
// ---------------------------------------------------------------------------------------------
/// A path of two names below another.
proof fn lemma_two_names(base: Seq<u8>, first: Seq<char>, second: Seq<char>)
    ensures
        paths::extended_by(base, seq![first, second]) == paths::extended(
            paths::extended(base, paths::bytes_of(first)),
            paths::bytes_of(second),
        ),
{
    let none = Seq::<Seq<char>>::empty();
    paths::law_names_are_joined_in_order(base, none, first);
    paths::law_names_are_joined_in_order(base, none.push(first), second);
    assert(none.push(first).push(second) =~= seq![first, second]);
}

/// The user's wallpapers are below the home directory, or below the current one where there is no
/// home.
pub proof fn law_users_wallpapers_are_below_home(home: Seq<u8>)
    ensures
        aerials_base(Some(home)) == paths::extended(
            paths::extended(
                paths::extended(
                    paths::extended(home, paths::bytes_of("Library"@)),
                    paths::bytes_of("Application Support"@),
                ),
                paths::bytes_of("com.apple.wallpaper"@),
            ),
            paths::bytes_of("aerials"@),
        ),
        aerials_base(None) == aerials_base(Some(seq![46u8])),
{
    let two = seq!["Library"@, "Application Support"@];
    let three = seq!["Library"@, "Application Support"@, "com.apple.wallpaper"@];
    let four = seq!["Library"@, "Application Support"@, "com.apple.wallpaper"@, "aerials"@];
    lemma_two_names(home, "Library"@, "Application Support"@);
    paths::law_names_are_joined_in_order(home, two, "com.apple.wallpaper"@);
    assert(two.push("com.apple.wallpaper"@) =~= three);
    paths::law_names_are_joined_in_order(home, three, "aerials"@);
    assert(three.push("aerials"@) =~= four);
    assert(paths::here() =~= seq![46u8]);
}

/// A manifest is looked for among the user's wallpapers first, and then among those that all users
/// share.
pub proof fn law_manifests_are_looked_for_in_two_places(user_base: Seq<u8>)
    ensures
        ({
            let shared = paths::bytes_of("/Library/Application Support/com.apple.idleassetsd"@);
            manifest_places(user_base) == seq![
                paths::extended(
                    paths::extended(user_base, paths::bytes_of("manifest"@)),
                    paths::bytes_of("entries.json"@),
                ),
                paths::extended(
                    paths::extended(shared, paths::bytes_of("Customer"@)),
                    paths::bytes_of("entries.json"@),
                ),
            ]
        }),
{
    let shared = paths::bytes_of("/Library/Application Support/com.apple.idleassetsd"@);
    lemma_two_names(user_base, "manifest"@, "entries.json"@);
    lemma_two_names(shared, "Customer"@, "entries.json"@);
}

/// A file at the place is the manifest, whatever else there is; else `entries.json` in a directory
/// there; else the first name beside it that may be that of a manifest.
pub proof fn law_manifests_are_found_at_the_place_first(facts: ManifestFacts, at: int)
    requires
        0 <= at <= facts.siblings@.len(),
        facts.siblings@.len() <= usize::MAX,
        at < facts.siblings@.len() ==> manifest_name(facts.siblings@[at]@),
        forall|i: int| 0 <= i < at ==> !manifest_name((#[trigger] facts.siblings@[i])@),
    ensures
        located(facts) == if facts.is_file {
            Some(Found::Itself)
        } else if facts.is_dir && facts.holds_entries {
            Some(Found::Entries)
        } else if at < facts.siblings@.len() {
            Some(Found::Sibling(at as usize))
        } else {
            None
        },
{
    let names = paths::contents(facts.siblings@);
    assert forall|i: int| 0 <= i < at implies !manifest_name(#[trigger] names[i]) by {
        assert(!manifest_name(facts.siblings@[i]@));
    }
    lemma_first_manifest_name(names, 0, at);
}

proof fn lemma_first_manifest_name(names: Seq<Seq<u8>>, from: int, at: int)
    requires
        0 <= from <= at <= names.len(),
        names.len() <= usize::MAX,
        at < names.len() ==> manifest_name(names[at]),
        forall|i: int| from <= i < at ==> !manifest_name(#[trigger] names[i]),
    ensures
        first_manifest_name(names, from) == if at < names.len() {
            Some(at as usize)
        } else {
            None
        },
    decreases at - from,
{
    if from < at {
        assert(!manifest_name(names[from]));
        lemma_first_manifest_name(names, from + 1, at);
    }
}

/// The name of a file may be that of a manifest exactly where it is text with `entries` in it and
/// has the extension `json`, in whatever case.
pub proof fn law_manifest_names_have_entries(name: Seq<u8>)
    requires
        paths::plain_name(name),
        name != paths::above(),
    ensures
        manifest_name(name) == (paths::has_extension(name, "json"@) && vstd::utf8::valid_utf8(name)
            && text::has_part(vstd::utf8::decode_utf8(name), "entries"@)),
{
    paths::law_names_are_paths(name);
}

/// A manifest belongs to the directory that it is in, or, where that is called `manifest`, to the
/// one above; a directory belongs to itself.
pub proof fn law_manifests_belong_to_their_directory(directory: Seq<u8>, file: Seq<u8>)
    requires
        paths::plain_name(file),
    ensures
        paths::final_name(paths::parts_of(directory)) != Some(paths::bytes_of("manifest"@))
            ==> base_dir(paths::extended(directory, file), false) == Some(
            paths::parts_of(directory),
        ),
        base_dir(
            paths::extended(
                paths::extended(directory, paths::bytes_of("manifest"@)),
                file,
            ),
            false,
        ) == Some(paths::parts_of(directory)),
        base_dir(directory, true) == Some(paths::parts_of(directory)),
        base_dir(Seq::empty(), false) is None,
{
    let name = paths::bytes_of("manifest"@);
    let inner = paths::extended(directory, name);
    reveal_strlit("manifest");
    lemma_plain("manifest"@);
    assert(paths::above().len() == 2);
    paths::law_going_up_undoes_joining(directory, file);
    paths::law_going_up_undoes_joining(directory, name);
    paths::law_going_up_undoes_joining(inner, file);
    paths::law_nothing_is_on_an_empty_path();
}

/// Downloads of the user's manifest go beside it, into `videos`; those of any other go where all
/// users' wallpapers are.
pub proof fn law_downloads_go_with_the_manifest(
    path: Seq<u8>,
    is_dir: bool,
    user_base: Seq<u8>,
)
    ensures
        ({
            let shared = paths::bytes_of("/Library/Application Support/com.apple.idleassetsd"@);
            output_place(path, is_dir, user_base) == if base_dir(path, is_dir) == Some(
                paths::parts_of(user_base),
            ) {
                paths::extended(user_base, paths::bytes_of("videos"@))
            } else {
                paths::extended(
                    paths::extended(shared, paths::bytes_of("Customer"@)),
                    paths::bytes_of("4KSDR240FPS"@),
                )
            }
        }),
{
    let shared = paths::bytes_of("/Library/Application Support/com.apple.idleassetsd"@);
    lemma_two_names(shared, "Customer"@, "4KSDR240FPS"@);
}

/// The strings of the user's manifest are looked for in the bundle beside it, first in the table of
/// all languages and then in those of the one asked for; the strings of any other manifest are
/// those of that language in the bundle that all users share.
pub proof fn law_strings_go_with_the_manifest(
    path: Seq<u8>,
    is_dir: bool,
    user_base: Seq<u8>,
    code: Seq<char>,
)
    ensures
        ({
            let shared = paths::extended(
                paths::extended(
                    paths::bytes_of("/Library/Application Support/com.apple.idleassetsd"@),
                    paths::bytes_of("Customer"@),
                ),
                paths::bytes_of("TVIdleScreenStrings.bundle"@),
            );
            let own = paths::extended(
                paths::extended(user_base, paths::bytes_of("manifest"@)),
                paths::bytes_of("TVIdleScreenStrings.bundle"@),
            );
            let places = strings_places(path, is_dir, user_base, code);
            let in_language = |bundle: Seq<u8>|
                paths::extended(
                    paths::extended(bundle, paths::bytes_of(code + ".lproj"@)),
                    paths::bytes_of("Localizable.nocache.strings"@),
                );
            if base_dir(path, is_dir) == Some(paths::parts_of(user_base)) {
                &&& places.len() == 2
                &&& places[0] == paths::extended(
                    paths::extended(
                        paths::extended(own, paths::bytes_of("Contents"@)),
                        paths::bytes_of("Resources"@),
                    ),
                    paths::bytes_of("Localizable.nocache.loctable"@),
                )
                &&& places[1] == in_language(own)
            } else {
                places.len() == 1 && places[0] == in_language(shared)
            }
        }),
{
    let base = paths::bytes_of("/Library/Application Support/com.apple.idleassetsd"@);
    let shared = paths::extended_by(base, seq!["Customer"@, "TVIdleScreenStrings.bundle"@]);
    let own = paths::extended_by(user_base, seq!["manifest"@, "TVIdleScreenStrings.bundle"@]);
    lemma_two_names(base, "Customer"@, "TVIdleScreenStrings.bundle"@);
    lemma_two_names(user_base, "manifest"@, "TVIdleScreenStrings.bundle"@);
    lemma_two_names(shared, code + ".lproj"@, "Localizable.nocache.strings"@);
    lemma_two_names(own, code + ".lproj"@, "Localizable.nocache.strings"@);
    lemma_two_names(own, "Contents"@, "Resources"@);
    let two = seq!["Contents"@, "Resources"@];
    paths::law_names_are_joined_in_order(own, two, "Localizable.nocache.loctable"@);
    assert(two.push("Localizable.nocache.loctable"@) =~= seq![
        "Contents"@,
        "Resources"@,
        "Localizable.nocache.loctable"@,
    ]);
}

/// The language is given by the first two letters of a locale, whatever white space is around it;
/// one of a single ASCII letter, or of none, gives none.
pub proof fn law_languages_have_two_letters(
    before: Seq<char>,
    locale: Seq<char>,
    after: Seq<char>,
)
    requires
        text::blank(before),
        text::blank(after),
        locale.len() > 0 ==> !text::white_space(locale[0]) && !text::white_space(locale.last()),
    ensures
        locale_letters(before + locale + after) == if locale.len() >= 2 {
            Some(locale.take(2))
        } else if locale.len() == 1 && locale[0] as u32 >= 128 {
            Some(locale)
        } else {
            None
        },
{
    let whole = before + locale + after;
    if locale.len() > 0 {
        text::law_trimming_takes_off_the_ends(before, locale, after);
        if locale.len() == 2 {
            assert(locale.take(2) =~= locale);
        }
    } else {
        assert forall|i: int| 0 <= i < whole.len() implies text::white_space(#[trigger] whole[i]) by {
            if i < before.len() {
                assert(whole[i] == before[i]);
            } else {
                assert(whole[i] == after[i - before.len()]);
            }
        }
        text::lemma_trim(whole);
    }
}

/// The environment decides on the language, where it gives one; else the system does; else it is
/// English.
pub proof fn law_environment_decides_on_the_language(
    environment: Option<Seq<char>>,
    system: Option<Seq<char>>,
)
    ensures
        environment is Some && locale_letters(environment->0) is Some ==> Some(
            language_letters(environment, system),
        ) == locale_letters(environment->0),
        environment is None || locale_letters(environment->0) is None ==> (if system is Some
            && locale_letters(system->0) is Some {
            Some(language_letters(environment, system)) == locale_letters(system->0)
        } else {
            language_letters(environment, system) == "en"@
        }),
{
}

/// Names are joined to the home directory, or to the current one where there is no home.
pub proof fn law_names_go_below_home(home: Seq<u8>, names: Seq<Seq<char>>)
    ensures
        below_home(Some(home), names) == paths::extended_by(home, names),
        below_home(None, names) == paths::extended_by(seq![46u8], names),
        shared_base() == paths::bytes_of("/Library/Application Support/com.apple.idleassetsd"@),
{
    assert(paths::here() =~= seq![46u8]);
}

/// A manifest is the user's exactly where the directory that it belongs to is that of the user's
/// wallpapers.
pub proof fn law_users_manifests_are_in_their_directory(
    path: Seq<u8>,
    is_dir: bool,
    user_base: Seq<u8>,
)
    ensures
        of_user(path, is_dir, user_base) == (base_dir(path, is_dir) == Some(
            paths::parts_of(user_base),
        )),
{
}

} // verus!
