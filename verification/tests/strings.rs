use awm::json::parse_json;
use awm::strings::{
    convert_strings_to_json, extract_labels, flatten_string_dict, is_loctable, load_strings,
    locale_preferences, normalize_locale, select_loctable_locale, Conversion, StringsCatalog,
    StringsError,
};

fn texts(list: &[&str]) -> Vec<String> {
    list.iter().map(|text| (*text).to_owned()).collect()
}

fn written(text: &str) -> Conversion {
    Conversion { success: true, stdout: text.as_bytes().to_vec(), stderr: Vec::new() }
}

#[test]
fn lookup_finds_the_last_of_equal_keys() {
    let strings = StringsCatalog::from_pairs(&[("k", "first"), ("l", "other"), ("k", "last")]);
    assert_eq!(strings.lookup("k"), Some("last"));
    assert_eq!(strings.lookup("l"), Some("other"));
    assert_eq!(strings.lookup("m"), None);
    assert!(StringsCatalog::default().is_empty());
    assert!(!strings.is_empty());
}

#[test]
fn locales_lose_encoding_and_modifier() {
    assert_eq!(normalize_locale("de-DE.UTF-8@euro"), Some("de_DE".to_owned()));
    assert_eq!(normalize_locale(" fr@x "), Some("fr".to_owned()));
    assert_eq!(normalize_locale("  "), None);
    assert_eq!(normalize_locale(".UTF-8"), None);
}

#[test]
fn preferences_end_with_english() {
    let values = vec![Some("de_DE.UTF-8".to_owned()), None, Some("_x".to_owned())];
    assert_eq!(locale_preferences(&values), texts(&["de_DE", "de", "_x", "en"]));
    assert_eq!(locale_preferences(&vec![None]), texts(&["en"]));
}

#[test]
fn loctables_are_known_by_their_extension() {
    assert!(is_loctable(b"/a/Localizable.nocache.LocTable"));
    assert!(!is_loctable(b"/a/Localizable.nocache.strings"));
    assert!(!is_loctable(b"/a/loctable"));
    assert!(is_loctable(b"/\xff/\xfe.loctable"));
    assert!(!is_loctable(b"/a/x.loctable\xff"));
}

#[test]
fn only_texts_are_labels() {
    let json = parse_json(r#"{"a": "x", "b": 1, "c": {"d": "y"}}"#).unwrap();
    let labels = flatten_string_dict(&json);
    assert_eq!(labels.lookup("a"), Some("x"));
    assert_eq!(labels.lookup("b"), None);
    assert_eq!(labels.lookup("d"), None);
}

#[test]
fn tables_prefer_the_locale_and_fall_back_to_the_first() {
    let json = parse_json(
        r#"{"de": {"k": "deutsch"}, "en": {"k": "english"}, "aa": {}, "ab": {"k": "first"}}"#,
    )
    .unwrap();
    let german = select_loctable_locale(&json, &texts(&["xx", "de", "en"])).unwrap();
    assert_eq!(german.lookup("k"), Some("deutsch"));
    let first = select_loctable_locale(&json, &texts(&["xx", "aa"])).unwrap();
    assert_eq!(first.lookup("k"), Some("first"));
    let none = parse_json(r#"{"aa": {}}"#).unwrap();
    assert!(select_loctable_locale(&none, &texts(&["aa"])).is_none());
    let list = parse_json("[]").unwrap();
    assert!(select_loctable_locale(&list, &texts(&["aa"])).is_none());
}

#[test]
fn plain_strings_are_read_flat() {
    let json = parse_json(r#"{"en": {"k": "english"}, "top": "flat"}"#).unwrap();
    let table = extract_labels(&json, b"x.loctable", &texts(&["en"]));
    assert_eq!(table.lookup("k"), Some("english"));
    let flat = extract_labels(&json, b"x.strings", &texts(&["en"]));
    assert_eq!(flat.lookup("top"), Some("flat"));
    assert_eq!(flat.lookup("k"), None);
}

#[test]
fn a_failed_conversion_gives_what_was_written_about_it() {
    let failed = Conversion {
        success: false,
        stdout: Vec::new(),
        stderr: b"  no such \xff file \n".to_vec(),
    };
    let error = convert_strings_to_json(failed).unwrap_err();
    assert!(matches!(&error, StringsError::Convert(words) if words == "no such \u{fffd} file"));
    assert_eq!(
        error.message(),
        "failed to convert strings bundle to json: no such \u{fffd} file"
    );
}

#[test]
fn a_conversion_that_is_no_text_is_refused() {
    let garbled = Conversion { success: true, stdout: vec![b'a', 0xff], stderr: Vec::new() };
    let error = convert_strings_to_json(garbled).unwrap_err();
    assert!(matches!(
        &error,
        StringsError::Convert(words)
            if words == "invalid utf-8 sequence of 1 bytes from index 1"
    ));
    assert_eq!(convert_strings_to_json(written("{\"ä\":1}")).unwrap(), "{\"ä\":1}");
}

#[test]
fn loading_strings_gives_labels_or_says_why_not() {
    let locale = vec![Some("de_DE".to_owned())];
    let table = written(r#"{"de": {"k": "deutsch"}, "en": {"k": "english"}}"#);
    let labels = load_strings(b"b/x.loctable", Ok(table), &locale).unwrap();
    assert_eq!(labels.lookup("k"), Some("deutsch"));

    let io = load_strings(b"x", Err("not found".to_owned()), &locale).err().unwrap();
    assert!(matches!(&io, StringsError::Io(words) if words == "not found"));
    assert_eq!(io.message(), "failed to read strings bundle: not found");

    let json = load_strings(b"x", Ok(written("nonsense")), &locale).err().unwrap();
    assert!(matches!(&json, StringsError::Json(_)));
    assert_eq!(
        json.message(),
        "failed to parse strings json: expected ident at line 1 column 2"
    );
}
