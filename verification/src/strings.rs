//! The strings bundle: labels by key, in the language the user prefers.

use vstd::hash_map::StringHashMap;
use vstd::prelude::*;

use crate::json;
use crate::json::Json;
use crate::paths;
use crate::text;

verus! {

/// Labels by key.
pub struct StringsCatalog {
    labels: StringHashMap<String>,
}

impl View for StringsCatalog {
    type V = Map<Seq<char>, Seq<char>>;

    closed spec fn view(&self) -> Map<Seq<char>, Seq<char>> {
        Map::new(|key: Seq<char>| self.labels@.contains_key(key), |key: Seq<char>| self.labels@[key]@)
    }
}

/// The labels that a list of pairs gives: of two pairs with one key, the later one counts.
pub open spec fn labels_of(pairs: Seq<(Seq<char>, Seq<char>)>) -> Map<Seq<char>, Seq<char>>
    decreases pairs.len(),
{
    if pairs.len() == 0 {
        Map::empty()
    } else {
        labels_of(pairs.drop_last()).insert(pairs.last().0, pairs.last().1)
    }
}

/// The contents of a list of pairs.
pub open spec fn pair_texts(pairs: Seq<(&str, &str)>) -> Seq<(Seq<char>, Seq<char>)> {
    Seq::new(pairs.len(), |i: int| (pairs[i].0@, pairs[i].1@))
}

impl Default for StringsCatalog {
    fn default() -> (catalog: Self)
        ensures
            catalog@ == Map::<Seq<char>, Seq<char>>::empty(),
    {
        let catalog = StringsCatalog { labels: StringHashMap::new() };
        assert(catalog@ =~= Map::<Seq<char>, Seq<char>>::empty());
        catalog
    }
}

impl StringsCatalog {
    /// The label under `key`.
    pub fn lookup(&self, key: &str) -> (label: Option<&str>)
        ensures
            match label {
                Some(label) => self@.contains_key(key@) && label@ == self@[key@],
                None => !self@.contains_key(key@),
            },
    {
        match self.labels.get(key) {
            Some(label) => Some(label.as_str()),
            None => None,
        }
    }

    /// Whether there is no label.
    pub fn is_empty(&self) -> (empty: bool)
        ensures
            empty == (self@ == Map::<Seq<char>, Seq<char>>::empty()),
    {
        proof {
            if self.labels@.is_empty() {
                assert(self@ =~= Map::<Seq<char>, Seq<char>>::empty());
            } else {
                let key = choose|key: Seq<char>| self.labels@.contains_key(key);
                assert(self.labels@.dom() != Set::<Seq<char>>::empty());
                assert(self.labels@.contains_key(key));
                assert(self@.contains_key(key));
            }
        }
        self.labels.is_empty()
    }

    fn insert(&mut self, key: String, label: String)
        ensures
            final(self)@ == old(self)@.insert(key@, label@),
    {
        self.labels.insert(key, label);
        assert(self@ =~= old(self)@.insert(key@, label@));
    }

    /// The catalog of the given pairs of keys and labels.
    pub fn from_pairs(pairs: &[(&str, &str)]) -> (catalog: Self)
        ensures
            catalog@ == labels_of(pair_texts(pairs@)),
    {
        let ghost all = pair_texts(pairs@);
        let mut catalog = StringsCatalog::default();
        let mut i: usize = 0;
        while i < pairs.len()
            invariant
                i <= pairs.len(),
                all == pair_texts(pairs@),
                catalog@ == labels_of(all.take(i as int)),
            decreases pairs.len() - i,
        {
            let (key, label) = pairs[i];
            catalog.insert(key.to_owned(), label.to_owned());
            i = i + 1;
            assert(all.take(i as int).drop_last() =~= all.take(i - 1));
        }
        assert(all.take(i as int) =~= all);
        catalog
    }
}

// ---------------------------------------------------------------------------------------------
// Locales
// ---------------------------------------------------------------------------------------------
/// The locale that an environment value names: without encoding and modifier, and with an
/// underscore between language and region.
pub open spec fn locale_of(value: Seq<char>) -> Option<Seq<char>> {
    let bare = text::before_first(text::before_first(text::trim(value), '.'), '@');
    if bare.len() == 0 {
        None
    } else {
        Some(text::replaced(bare, '-', '_'))
    }
}

/// Reads the locale out of an environment value.
pub fn normalize_locale(value: &str) -> (locale: Option<String>)
    ensures
        text::text_option(locale) == locale_of(value@),
{
    let trimmed = value.trim();
    if trimmed.is_empty() {
        assert(text::before_first(trimmed@, '.').len() == 0);
        return None;
    }
    let without_encoding = text::cut_before(trimmed, '.');
    let without_modifier = text::cut_before(without_encoding.as_str(), '@');
    let normalized = text::replace_char(without_modifier.as_str(), '-', '_');
    if normalized.as_str().is_empty() {
        None
    } else {
        Some(normalized)
    }
}

/// The contents of a list of environment values.
pub open spec fn value_texts(values: Seq<Option<String>>) -> Seq<Option<Seq<char>>> {
    Seq::new(values.len(), |i: int| text::text_option(values[i]))
}

/// The locales that one environment value stands for: itself, and the language alone.
pub open spec fn locales_in(value: Option<Seq<char>>) -> Seq<Seq<char>> {
    match value {
        Some(value) => match locale_of(value) {
            Some(locale) => {
                let language = text::before_first(locale, '_');
                if language.len() == 0 {
                    seq![locale]
                } else {
                    seq![locale, language]
                }
            },
            None => Seq::empty(),
        },
        None => Seq::empty(),
    }
}

/// The locales that a list of environment values stands for, in the order of the list.
pub open spec fn locales_among(values: Seq<Option<Seq<char>>>) -> Seq<Seq<char>>
    decreases values.len(),
{
    if values.len() == 0 {
        Seq::empty()
    } else {
        locales_among(values.drop_last()) + locales_in(values.last())
    }
}

/// The locales to look for, best first. English is the last resort.
pub open spec fn preferred_locales(values: Seq<Option<Seq<char>>>) -> Seq<Seq<char>> {
    locales_among(values).push("en"@)
}

/// English is always looked for, after all else.
pub proof fn law_english_is_the_last_resort(values: Seq<Option<Seq<char>>>)
    ensures
        preferred_locales(values).last() == "en"@,
{
}

/// Lists the locales to look for, given the values of the environment's locale variables in their
/// order of precedence.
pub fn locale_preferences(values: &Vec<Option<String>>) -> (locales: Vec<String>)
    ensures
        text::texts(locales@) == preferred_locales(value_texts(values@)),
{
    let ghost all = value_texts(values@);
    let mut locales: Vec<String> = Vec::new();
    let mut i: usize = 0;
    assert(text::texts(locales@) =~= locales_among(all.take(0)));
    while i < values.len()
        invariant
            i <= values.len(),
            all == value_texts(values@),
            text::texts(locales@) == locales_among(all.take(i as int)),
        decreases values.len() - i,
    {
        let ghost before = text::texts(locales@);
        let ghost now = all.take(i + 1);
        assert(now.drop_last() =~= all.take(i as int));
        assert(now.last() == text::text_option(values@[i as int]));
        if let Some(value) = &values[i] {
            if let Some(locale) = normalize_locale(value.as_str()) {
                let language = text::cut_before(locale.as_str(), '_');
                let ghost name = locale@;
                locales.push(locale);
                if !language.as_str().is_empty() {
                    locales.push(language);
                    assert(text::texts(locales@) =~= before + seq![name, language@]);
                } else {
                    assert(text::texts(locales@) =~= before + seq![name]);
                }
            } else {
                assert(text::texts(locales@) =~= before + Seq::<Seq<char>>::empty());
            }
        } else {
            assert(text::texts(locales@) =~= before + Seq::<Seq<char>>::empty());
        }
        i = i + 1;
    }
    assert(all.take(i as int) =~= all);
    let ghost before = text::texts(locales@);
    locales.push("en".to_owned());
    assert(text::texts(locales@) =~= before.push("en"@));
    locales
}

// ---------------------------------------------------------------------------------------------
// Labels in a document
// ---------------------------------------------------------------------------------------------
/// The members of an object that are texts, by key.
pub open spec fn text_members(members: Seq<(Seq<char>, json::Tree)>) -> Map<Seq<char>, Seq<char>>
    decreases members.len(),
{
    if members.len() == 0 {
        Map::empty()
    } else {
        let rest = text_members(members.drop_last());
        match members.last().1 {
            json::Tree::Text(label) => rest.insert(members.last().0, label),
            _ => rest,
        }
    }
}

/// The labels in a document: the texts among the members of an object, and none elsewhere.
pub open spec fn label_texts(tree: json::Tree) -> Map<Seq<char>, Seq<char>> {
    match tree {
        json::Tree::Object(members) => text_members(members),
        _ => Map::empty(),
    }
}

/// Collects the labels of a document.
pub fn flatten_string_dict(value: &Json) -> (labels: StringsCatalog)
    ensures
        labels@ == label_texts(value@),
{
    let mut labels = StringsCatalog::default();
    if let Some(members) = value.as_object() {
        let ghost all = json::pairs(members@);
        let mut i: usize = 0;
        while i < members.len()
            invariant
                i <= members.len(),
                all == json::pairs(members@),
                labels@ == text_members(all.take(i as int)),
            decreases members.len() - i,
        {
            assert(all.take(i + 1).drop_last() =~= all.take(i as int));
            assert(all.take(i + 1).last() == all[i as int]);
            if let Some(label) = members[i].1.as_str() {
                labels.insert(members[i].0.clone(), label.to_owned());
            }
            i = i + 1;
        }
        assert(all.take(i as int) =~= all);
    }
    labels
}

/// The labels of the first of `locales` for which there are any.
pub open spec fn labels_by_locale(
    members: Seq<(Seq<char>, json::Tree)>,
    locales: Seq<Seq<char>>,
) -> Option<Map<Seq<char>, Seq<char>>>
    decreases locales.len(),
{
    if locales.len() == 0 {
        None
    } else {
        match json::member(members, locales[0]) {
            Some(entry) => if label_texts(entry) != Map::<Seq<char>, Seq<char>>::empty() {
                Some(label_texts(entry))
            } else {
                labels_by_locale(members, locales.drop_first())
            },
            None => labels_by_locale(members, locales.drop_first()),
        }
    }
}

/// The labels of the first member that has any.
pub open spec fn first_labels(members: Seq<(Seq<char>, json::Tree)>) -> Option<
    Map<Seq<char>, Seq<char>>,
>
    decreases members.len(),
{
    if members.len() == 0 {
        None
    } else if label_texts(members[0].1) != Map::<Seq<char>, Seq<char>>::empty() {
        Some(label_texts(members[0].1))
    } else {
        first_labels(members.drop_first())
    }
}

/// The labels that a table of locales gives: those of the best locale that has any, else those of
/// the first entry that has any.
pub open spec fn table_labels(tree: json::Tree, locales: Seq<Seq<char>>) -> Option<
    Map<Seq<char>, Seq<char>>,
> {
    match tree {
        json::Tree::Object(members) => match labels_by_locale(members, locales) {
            Some(labels) => Some(labels),
            None => first_labels(members),
        },
        _ => None,
    }
}

proof fn lemma_labels_by_locale_are_some(
    members: Seq<(Seq<char>, json::Tree)>,
    locales: Seq<Seq<char>>,
)
    ensures
        labels_by_locale(members, locales) matches Some(labels) ==> labels != Map::<
            Seq<char>,
            Seq<char>,
        >::empty(),
    decreases locales.len(),
{
    if locales.len() > 0 {
        lemma_labels_by_locale_are_some(members, locales.drop_first());
    }
}

proof fn lemma_first_labels_are_some(members: Seq<(Seq<char>, json::Tree)>)
    ensures
        first_labels(members) matches Some(labels) ==> labels != Map::<
            Seq<char>,
            Seq<char>,
        >::empty(),
    decreases members.len(),
{
    if members.len() > 0 {
        lemma_first_labels_are_some(members.drop_first());
    }
}

/// A table of locales gives some label, or nothing.
pub proof fn law_tables_give_labels(tree: json::Tree, locales: Seq<Seq<char>>)
    ensures
        table_labels(tree, locales) matches Some(labels) ==> labels != Map::<
            Seq<char>,
            Seq<char>,
        >::empty(),
{
    if let json::Tree::Object(members) = tree {
        lemma_labels_by_locale_are_some(members, locales);
        lemma_first_labels_are_some(members);
    }
}

/// The content of an optional catalog.
pub open spec fn catalog_option(catalog: Option<StringsCatalog>) -> Option<
    Map<Seq<char>, Seq<char>>,
> {
    match catalog {
        Some(catalog) => Some(catalog@),
        None => None,
    }
}

/// Picks the labels out of a table of locales, in which `locales` are preferred, best first.
pub fn select_loctable_locale(value: &Json, locales: &Vec<String>) -> (labels: Option<
    StringsCatalog,
>)
    ensures
        catalog_option(labels) == table_labels(value@, text::texts(locales@)),
{
    let members = match value.as_object() {
        Some(members) => members,
        None => {
            return None;
        },
    };
    let ghost all = json::pairs(members@);
    let ghost names = text::texts(locales@);
    let mut i: usize = 0;
    assert(names.skip(0) =~= names);
    while i < locales.len()
        invariant
            i <= locales.len(),
            all == json::pairs(members@),
            names == text::texts(locales@),
            value@ == json::Tree::Object(all),
            labels_by_locale(all, names) == labels_by_locale(all, names.skip(i as int)),
        decreases locales.len() - i,
    {
        assert(names.skip(i as int)[0] == locales@[i as int]@);
        assert(names.skip(i as int).drop_first() =~= names.skip(i + 1));
        if let Some(entry) = json::find_member(members, locales[i].as_str()) {
            let labels = flatten_string_dict(entry);
            if !labels.is_empty() {
                return Some(labels);
            }
        }
        i = i + 1;
    }
    let mut k: usize = 0;
    assert(all.skip(0) =~= all);
    while k < members.len()
        invariant
            k <= members.len(),
            all == json::pairs(members@),
            value@ == json::Tree::Object(all),
            labels_by_locale(all, names) is None,
            names == text::texts(locales@),
            first_labels(all) == first_labels(all.skip(k as int)),
        decreases members.len() - k,
    {
        assert(all.skip(k as int)[0] == all[k as int]);
        assert(all.skip(k as int).drop_first() =~= all.skip(k + 1));
        let labels = flatten_string_dict(&members[k].1);
        if !labels.is_empty() {
            return Some(labels);
        }
        k = k + 1;
    }
    None
}

/// Whether a path names a table of locales.
pub fn is_loctable(path: &[u8]) -> (is: bool)
    ensures
        is == paths::has_extension(path@, "loctable"@),
{
    paths::extension_is(path, "loctable")
}

/// The labels of a strings document that lies at `path`. A table of locales gives those of one
/// locale; any other document, and a table without labels for any locale, those at its top.
pub open spec fn document_labels(
    tree: json::Tree,
    path: Seq<u8>,
    locales: Seq<Seq<char>>,
) -> Map<Seq<char>, Seq<char>> {
    if paths::has_extension(path, "loctable"@) && table_labels(tree, locales) is Some {
        table_labels(tree, locales)->0
    } else {
        label_texts(tree)
    }
}

/// Collects the labels of a strings document that lies at `path`.
pub fn extract_labels(value: &Json, path: &[u8], locales: &Vec<String>) -> (labels: StringsCatalog)
    ensures
        labels@ == document_labels(value@, path@, text::texts(locales@)),
{
    if is_loctable(path) {
        if let Some(labels) = select_loctable_locale(value, locales) {
            return labels;
        }
    }
    flatten_string_dict(value)
}

// ---------------------------------------------------------------------------------------------
// Loading
// ---------------------------------------------------------------------------------------------
/// Why a strings bundle cannot be loaded.
#[derive(Debug)]
pub enum StringsError {
    /// The converter could not be run.
    Io(String),
    /// The converter refused the bundle, or wrote something that is no text.
    Convert(String),
    /// What the converter wrote is no JSON document.
    Json(String),
}

/// The content of a [`StringsError`].
pub enum StringsFault {
    Io(Seq<char>),
    Convert(Seq<char>),
    Json(Seq<char>),
}

impl View for StringsError {
    type V = StringsFault;

    open spec fn view(&self) -> StringsFault {
        match self {
            StringsError::Io(words) => StringsFault::Io(words@),
            StringsError::Convert(words) => StringsFault::Convert(words@),
            StringsError::Json(words) => StringsFault::Json(words@),
        }
    }
}

impl StringsError {
    /// The error in words.
    pub fn message(&self) -> (words: String)
        ensures
            words@ == match self@ {
                StringsFault::Io(fault) => "failed to read strings bundle: "@ + fault,
                StringsFault::Convert(fault) => {
                    "failed to convert strings bundle to json: "@ + fault
                },
                StringsFault::Json(fault) => "failed to parse strings json: "@ + fault,
            },
    {
        let (lead, fault) = match self {
            StringsError::Io(fault) => ("failed to read strings bundle: ", fault),
            StringsError::Convert(fault) => ("failed to convert strings bundle to json: ", fault),
            StringsError::Json(fault) => ("failed to parse strings json: ", fault),
        };
        let mut words = lead.to_owned();
        words.append(fault.as_str());
        words
    }
}

/// What the converter left behind.
#[derive(Debug)]
pub struct Conversion {
    pub success: bool,
    pub stdout: Vec<u8>,
    pub stderr: Vec<u8>,
}

/// The document that the converter wrote, or why there is none.
pub open spec fn converted_text(success: bool, stdout: Seq<u8>, stderr: Seq<u8>) -> Result<
    Seq<char>,
    StringsFault,
> {
    if !success {
        Err(StringsFault::Convert(text::trim(text::shown_bytes(stderr))))
    } else if vstd::utf8::valid_utf8(stdout) {
        Ok(vstd::utf8::decode_utf8(stdout))
    } else {
        Err(StringsFault::Convert(text::utf8_refusal(stdout)))
    }
}

/// Takes the document out of what the converter left behind.
pub fn convert_strings_to_json(conversion: Conversion) -> (document: Result<String, StringsError>)
    ensures
        match document {
            Ok(document) => converted_text(
                conversion.success,
                conversion.stdout@,
                conversion.stderr@,
            ) == Ok::<Seq<char>, StringsFault>(document@),
            Err(error) => converted_text(
                conversion.success,
                conversion.stdout@,
                conversion.stderr@,
            ) == Err::<Seq<char>, StringsFault>(error@),
        },
{
    if !conversion.success {
        let words = text::utf8_text_lossy(&conversion.stderr);
        return Err(StringsError::Convert(words.as_str().trim().to_owned()));
    }
    match text::utf8_text(conversion.stdout) {
        Ok(document) => Ok(document),
        Err(words) => Err(StringsError::Convert(words)),
    }
}

/// The labels that a text of JSON gives, or why there are none.
pub open spec fn read_labels(
    document: Seq<char>,
    path: Seq<u8>,
    locales: Seq<Seq<char>>,
) -> Result<Map<Seq<char>, Seq<char>>, StringsFault> {
    match json::json_reading(document) {
        Ok(tree) => Ok(document_labels(tree, path, locales)),
        Err(words) => Err(StringsFault::Json(words)),
    }
}

/// Loads the strings bundle at `path`, given what running the converter on it came to and the
/// values of the environment's locale variables in their order of precedence.
pub fn load_strings(
    path: &[u8],
    run: Result<Conversion, String>,
    locale_values: &Vec<Option<String>>,
) -> (loaded: Result<StringsCatalog, StringsError>)
    ensures
        match run {
            Err(words) => loaded matches Err(error) && error@ == StringsFault::Io(words@),
            Ok(conversion) => match converted_text(
                conversion.success,
                conversion.stdout@,
                conversion.stderr@,
            ) {
                Err(fault) => loaded matches Err(error) && error@ == fault,
                Ok(document) => match read_labels(
                    document,
                    path@,
                    preferred_locales(value_texts(locale_values@)),
                ) {
                    Err(fault) => loaded matches Err(error) && error@ == fault,
                    Ok(labels) => loaded matches Ok(catalog) && catalog@ == labels,
                },
            },
        },
{
    let conversion = match run {
        Ok(conversion) => conversion,
        Err(words) => {
            return Err(StringsError::Io(words));
        },
    };
    let document = match convert_strings_to_json(conversion) {
        Ok(document) => document,
        Err(error) => {
            return Err(error);
        },
    };
    match json::parse_json(document.as_str()) {
        Ok(value) => {
            let locales = locale_preferences(locale_values);
            Ok(extract_labels(&value, path, &locales))
        },
        Err(words) => Err(StringsError::Json(words)),
    }
}

// ---------------------------------------------------------------------------------------------
// Which locale counts
// ---------------------------------------------------------------------------------------------
/// A locale loses the white space around it, its encoding and its modifier, whatever these are, and
/// a hyphen in it becomes an underscore; nothing else of it changes.
pub proof fn law_locales_lose_encoding_and_modifier(
    before: Seq<char>,
    bare: Seq<char>,
    tail: Seq<char>,
)
    requires
        text::blank(before),
        bare.len() > 0,
        !bare.contains('.'),
        !bare.contains('@'),
        !text::white_space(bare[0]),
        text::blank(tail) ==> !text::white_space(bare.last()),
        text::blank(tail) || tail[0] == '.' || tail[0] == '@',
    ensures
        ({
            let locale = locale_of(before + bare + tail);
            &&& locale is Some
            &&& locale->0.len() == bare.len()
            &&& forall|i: int|
                0 <= i < bare.len() ==> #[trigger] locale->0[i] == if bare[i] == '-' {
                    '_'
                } else {
                    bare[i]
                }
        }),
{
    let value = before + bare + tail;
    let none = Seq::<char>::empty();
    if text::blank(tail) {
        text::law_trimming_takes_off_the_ends(before, bare, tail);
        assert(bare + none =~= bare);
        lemma_cut_locale(bare, none);
    } else {
        let (left, right) = text::lemma_trim_parts(tail);
        text::lemma_trim(tail);
        let kept = text::trim(tail);
        assert(left.len() == 0) by {
            if left.len() > 0 {
                assert(tail[0] == left[0]);
            }
        }
        assert(tail =~= kept + right);
        assert(kept[0] == tail[0]);
        let core = bare + kept;
        assert(value =~= before + core + right);
        assert(core[0] == bare[0]);
        assert(core.last() == kept.last());
        text::law_trimming_takes_off_the_ends(before, core, right);
        lemma_cut_locale(bare, kept);
    }
}

proof fn lemma_cut_locale(bare: Seq<char>, tail: Seq<char>)
    requires
        !bare.contains('.'),
        !bare.contains('@'),
        tail.len() == 0 || tail[0] == '.' || tail[0] == '@',
    ensures
        text::before_first(text::before_first(bare + tail, '.'), '@') == bare,
{
    let value = bare + tail;
    text::lemma_first_at(value, '.');
    let dot = text::first_at(value, '.');
    let front = value.take(dot);
    assert(dot >= bare.len()) by {
        if dot < bare.len() {
            assert(bare.contains(bare[dot]));
        }
    }
    text::lemma_first_at(front, '@');
    let at = text::first_at(front, '@');
    assert(at >= bare.len()) by {
        if at < bare.len() {
            assert(bare.contains(bare[at]));
        }
    }
    assert(at == bare.len()) by {
        if at > bare.len() {
            assert(front[bare.len() as int] == tail[0]);
            assert(tail[0] == '.');
            assert(value[bare.len() as int] == '.');
        }
    }
    assert(front.take(at) =~= bare);
}

/// A value that is blank, or begins with its encoding or its modifier, names no locale.
pub proof fn law_values_without_a_name_are_no_locale(before: Seq<char>, tail: Seq<char>)
    requires
        text::blank(before),
        text::blank(tail) || tail[0] == '.' || tail[0] == '@',
    ensures
        locale_of(before + tail) is None,
{
    let value = before + tail;
    if text::blank(tail) {
        assert forall|i: int| 0 <= i < value.len() implies text::white_space(#[trigger] value[i]) by {
            if i < before.len() {
                assert(value[i] == before[i]);
            } else {
                assert(value[i] == tail[i - before.len()]);
            }
        }
        text::lemma_trim(value);
    } else {
        let (left, right) = text::lemma_trim_parts(tail);
        let kept = text::trim(tail);
        text::lemma_trim(tail);
        assert(left.len() == 0) by {
            if left.len() > 0 {
                assert(tail[0] == left[0]);
            }
        }
        assert(kept[0] == tail[0]);
        assert(value =~= before + kept + right);
        text::law_trimming_takes_off_the_ends(before, kept, right);
        let none = Seq::<char>::empty();
        assert(none + kept =~= kept);
        lemma_cut_locale(none, kept);
    }
}

/// Each environment value adds its locale and then its language, behind those of the values before
/// it and before English; one that names no locale adds nothing.
pub proof fn law_locales_come_in_the_order_of_their_values(
    values: Seq<Option<Seq<char>>>,
    value: Option<Seq<char>>,
    language: Seq<char>,
    region: Seq<char>,
)
    requires
        !language.contains('_'),
    ensures
        preferred_locales(Seq::empty()) == seq!["en"@],
        value is None || locale_of(value->0) is None ==> preferred_locales(values.push(value))
            == preferred_locales(values),
        value is Some && language.len() > 0 && locale_of(value->0) == Some(
            language + seq!['_'] + region,
        ) ==> preferred_locales(values.push(value)) == preferred_locales(values).drop_last() + seq![
            language + seq!['_'] + region,
            language,
            "en"@,
        ],
        value is Some && language.len() > 0 && locale_of(value->0) == Some(language)
            ==> preferred_locales(values.push(value)) == preferred_locales(values).drop_last()
            + seq![language, language, "en"@],
        value is Some && locale_of(value->0) == Some(seq!['_'] + region) ==> preferred_locales(
            values.push(value),
        ) == preferred_locales(values).drop_last() + seq![seq!['_'] + region, "en"@],
{
    let longer = values.push(value);
    assert(longer.drop_last() =~= values);
    let earlier = locales_among(values);
    assert(preferred_locales(values).drop_last() =~= earlier);
    assert(preferred_locales(Seq::empty()) =~= seq!["en"@]);
    let english = seq!["en"@];
    text::law_texts_are_cut_at_the_character(language, '_', region);
    text::law_texts_are_cut_at_the_character(Seq::empty(), '_', region);
    assert(Seq::<char>::empty() + seq!['_'] + region =~= seq!['_'] + region);
    if value is None || locale_of(value->0) is None {
        assert(preferred_locales(longer) =~= preferred_locales(values));
    } else {
        let locale = locale_of(value->0)->0;
        let full = language + seq!['_'] + region;
        let bare = seq!['_'] + region;
        if locale == full && language.len() > 0 {
            assert(preferred_locales(longer) =~= earlier + seq![full, language, "en"@]);
        }
        if locale == language && language.len() > 0 {
            assert(preferred_locales(longer) =~= earlier + seq![language, language, "en"@]);
        }
        if locale == bare {
            assert(preferred_locales(longer) =~= earlier + seq![bare, "en"@]);
        }
    }
}

// ---------------------------------------------------------------------------------------------
// Which labels count
// ---------------------------------------------------------------------------------------------
/// The labels of an object are its members that are texts, under their keys and as they are; the
/// last of those with one key counts. Anything but an object has none.
pub proof fn law_labels_are_the_texts(
    members: Seq<(Seq<char>, json::Tree)>,
    key: Seq<char>,
    at: int,
)
    requires
        -1 <= at < members.len(),
        at >= 0 ==> members[at].0 == key && members[at].1 is Text,
        forall|i: int|
            at < i < members.len() ==> !((#[trigger] members[i]).0 == key && members[i].1 is Text),
    ensures
        label_texts(json::Tree::Object(members)).contains_key(key) == (at >= 0),
        at >= 0 ==> label_texts(json::Tree::Object(members))[key] == members[at].1->Text_0,
    decreases members.len(),
{
    if members.len() > 0 {
        let front = members.drop_last();
        let last = members.len() - 1;
        if at < last {
            assert forall|i: int| at < i < front.len() implies !((#[trigger] front[i]).0 == key
                && front[i].1 is Text) by {
                assert(front[i] == members[i]);
            }
            law_labels_are_the_texts(front, key, at);
            assert(!(members[last].0 == key && members[last].1 is Text));
        }
    }
}

/// Lists, texts and the like have no labels.
pub proof fn law_only_objects_have_labels(tree: json::Tree, key: Seq<char>)
    requires
        !(tree is Object),
    ensures
        !label_texts(tree).contains_key(key),
{
}

/// Whether an object has labels for a locale: under the locale, an object with a text in it.
pub open spec fn has_labels_for(
    members: Seq<(Seq<char>, json::Tree)>,
    locale: Seq<char>,
) -> bool {
    json::member(members, locale) matches Some(entry) && has_labels(entry)
}

/// Whether there is a label in a document.
pub open spec fn has_labels(tree: json::Tree) -> bool {
    exists|key: Seq<char>| #[trigger] label_texts(tree).contains_key(key)
}

proof fn lemma_has_labels(tree: json::Tree)
    ensures
        has_labels(tree) == (label_texts(tree) != Map::<Seq<char>, Seq<char>>::empty()),
{
    if !has_labels(tree) {
        assert(label_texts(tree) =~= Map::<Seq<char>, Seq<char>>::empty());
    }
}

/// Of a table, the labels of the best locale count that has any, whatever worse ones have.
pub proof fn law_best_locale_counts(
    members: Seq<(Seq<char>, json::Tree)>,
    locales: Seq<Seq<char>>,
    at: int,
)
    requires
        0 <= at < locales.len(),
        has_labels_for(members, locales[at]),
        forall|i: int| 0 <= i < at ==> !has_labels_for(members, #[trigger] locales[i]),
    ensures
        table_labels(json::Tree::Object(members), locales) == Some(
            label_texts(json::member(members, locales[at])->0),
        ),
    decreases locales.len(),
{
    lemma_has_labels(json::member(members, locales[0])->0);
    if at > 0 {
        let rest = locales.drop_first();
        assert(!has_labels_for(members, locales[0]));
        assert forall|i: int| 0 <= i < at - 1 implies !has_labels_for(
            members,
            #[trigger] rest[i],
        ) by {
            assert(rest[i] == locales[i + 1]);
        }
        law_best_locale_counts(members, rest, at - 1);
        assert(labels_by_locale(members, rest) is Some) by {
            lemma_labels_by_locale(members, rest, at - 1);
        }
    }
}

proof fn lemma_labels_by_locale(
    members: Seq<(Seq<char>, json::Tree)>,
    locales: Seq<Seq<char>>,
    at: int,
)
    requires
        0 <= at < locales.len(),
        has_labels_for(members, locales[at]),
    ensures
        labels_by_locale(members, locales) is Some,
    decreases locales.len(),
{
    if at > 0 {
        lemma_labels_by_locale(members, locales.drop_first(), at - 1);
    } else {
        lemma_has_labels(json::member(members, locales[0])->0);
    }
}

/// Where a table has no labels for any of the locales, those of its first member with labels count;
/// where no member has any, or the document is no object, there are none.
pub proof fn law_any_locale_is_better_than_none(
    members: Seq<(Seq<char>, json::Tree)>,
    locales: Seq<Seq<char>>,
    at: int,
)
    requires
        forall|i: int| 0 <= i < locales.len() ==> !has_labels_for(members, #[trigger] locales[i]),
        0 <= at <= members.len(),
        at < members.len() ==> has_labels(members[at].1),
        forall|i: int| 0 <= i < at ==> !has_labels((#[trigger] members[i]).1),
    ensures
        table_labels(json::Tree::Object(members), locales) == if at < members.len() {
            Some(label_texts(members[at].1))
        } else {
            None
        },
{
    lemma_no_labels_by_locale(members, locales);
    lemma_first_labels(members, at);
}

proof fn lemma_no_labels_by_locale(
    members: Seq<(Seq<char>, json::Tree)>,
    locales: Seq<Seq<char>>,
)
    requires
        forall|i: int| 0 <= i < locales.len() ==> !has_labels_for(members, #[trigger] locales[i]),
    ensures
        labels_by_locale(members, locales) is None,
    decreases locales.len(),
{
    if locales.len() > 0 {
        let rest = locales.drop_first();
        assert(!has_labels_for(members, locales[0]));
        lemma_has_labels(json::member(members, locales[0])->0);
        assert forall|i: int| 0 <= i < rest.len() implies !has_labels_for(
            members,
            #[trigger] rest[i],
        ) by {
            assert(rest[i] == locales[i + 1]);
        }
        lemma_no_labels_by_locale(members, rest);
    }
}

proof fn lemma_first_labels(members: Seq<(Seq<char>, json::Tree)>, at: int)
    requires
        0 <= at <= members.len(),
        at < members.len() ==> has_labels(members[at].1),
        forall|i: int| 0 <= i < at ==> !has_labels((#[trigger] members[i]).1),
    ensures
        first_labels(members) == if at < members.len() {
            Some(label_texts(members[at].1))
        } else {
            None
        },
    decreases members.len(),
{
    if members.len() > 0 {
        lemma_has_labels(members[0].1);
        if at > 0 {
            let rest = members.drop_first();
            assert(!has_labels(members[0].1));
            assert forall|i: int| 0 <= i < at - 1 implies !has_labels((#[trigger] rest[i]).1) by {
                assert(rest[i] == members[i + 1]);
            }
            lemma_first_labels(rest, at - 1);
        }
    }
}

/// Only a file with the extension of a table is read as one, and only where it gives labels; any
/// other document gives the labels at its top.
pub proof fn law_tables_are_known_by_their_extension(
    tree: json::Tree,
    path: Seq<u8>,
    locales: Seq<Seq<char>>,
)
    ensures
        !(tree is Object) ==> table_labels(tree, locales) is None,
        document_labels(tree, path, locales) == if paths::has_extension(path, "loctable"@)
            && table_labels(tree, locales) is Some {
            table_labels(tree, locales)->0
        } else {
            label_texts(tree)
        },
{
}

/// Of pairs with one key the last counts.
pub proof fn law_last_pair_counts(pairs: Seq<(Seq<char>, Seq<char>)>, key: Seq<char>, at: int)
    requires
        -1 <= at < pairs.len(),
        at >= 0 ==> pairs[at].0 == key,
        forall|i: int| at < i < pairs.len() ==> (#[trigger] pairs[i]).0 != key,
    ensures
        labels_of(pairs).contains_key(key) == (at >= 0),
        at >= 0 ==> labels_of(pairs)[key] == pairs[at].1,
    decreases pairs.len(),
{
    if pairs.len() > 0 {
        let front = pairs.drop_last();
        let last = pairs.len() - 1;
        if at < last {
            assert forall|i: int| at < i < front.len() implies (#[trigger] front[i]).0 != key by {
                assert(front[i] == pairs[i]);
            }
            law_last_pair_counts(front, key, at);
            assert(pairs[last].0 != key);
        }
    }
}

/// A conversion counts exactly where it succeeded and wrote UTF-8: then it gives what was written,
/// whatever else was said. A failed one tells what was said about it, without white space around
/// it.
pub proof fn law_conversions_give_what_was_written(
    stdout: Seq<u8>,
    stderr: Seq<u8>,
)
    ensures
        vstd::utf8::valid_utf8(stdout) ==> converted_text(true, stdout, stderr) == Ok::<
            Seq<char>,
            StringsFault,
        >(vstd::utf8::decode_utf8(stdout)),
        !vstd::utf8::valid_utf8(stdout) ==> converted_text(true, stdout, stderr) == Err::<
            Seq<char>,
            StringsFault,
        >(StringsFault::Convert(text::utf8_refusal(stdout))),
        vstd::utf8::valid_utf8(stderr) ==> converted_text(false, stdout, stderr) == Err::<
            Seq<char>,
            StringsFault,
        >(StringsFault::Convert(text::trim(vstd::utf8::decode_utf8(stderr)))),
        !vstd::utf8::valid_utf8(stderr) ==> converted_text(false, stdout, stderr) == Err::<
            Seq<char>,
            StringsFault,
        >(StringsFault::Convert(text::trim(text::utf8_lossy(stderr)))),
{
}

/// A text of JSON gives the labels of the document that it is, and is refused where it is none.
pub proof fn law_documents_give_their_labels(
    document: Seq<char>,
    path: Seq<u8>,
    locales: Seq<Seq<char>>,
    tree: json::Tree,
    words: Seq<char>,
)
    ensures
        json::json_reading(document) == Ok::<json::Tree, Seq<char>>(tree) ==> read_labels(
            document,
            path,
            locales,
        ) == Ok::<Map<Seq<char>, Seq<char>>, StringsFault>(document_labels(tree, path, locales)),
        json::json_reading(document) == Err::<json::Tree, Seq<char>>(words) ==> read_labels(
            document,
            path,
            locales,
        ) == Err::<Map<Seq<char>, Seq<char>>, StringsFault>(StringsFault::Json(words)),
{
}

} // verus!
