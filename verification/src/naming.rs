//! Names: labels for people, file names for disks.

use vstd::prelude::*;

use crate::text;

verus! {

/// The name of things that have none.
pub open spec fn general() -> Seq<char> {
    "General"@
}

// ---------------------------------------------------------------------------------------------
// Labels
// ---------------------------------------------------------------------------------------------
/// A raw label without the prefix that marks it as one of the aerials'.
pub open spec fn without_aerial_prefix(raw: Seq<char>) -> Seq<char> {
    match text::without_prefix(raw, "AerialCategory"@) {
        Some(rest) => rest,
        None => match text::without_prefix(raw, "AerialSubcategory"@) {
            Some(rest) => rest,
            None => match text::without_prefix(raw, "Aerial"@) {
                Some(rest) => rest,
                None => raw,
            },
        },
    }
}

/// A text with a space put before each upper-case ASCII letter that follows a lower-case one.
pub open spec fn words_apart(text: Seq<char>) -> Seq<char>
    decreases text.len(),
{
    if text.len() == 0 {
        text
    } else {
        let head = words_apart(text.drop_last());
        if starts_word(text, text.len() - 1) {
            head.push(' ').push(text.last())
        } else {
            head.push(text.last())
        }
    }
}

/// Whether the letter at `at` is upper case and follows a lower-case one.
pub open spec fn starts_word(text: Seq<char>, at: int) -> bool {
    0 < at < text.len() && 'A' <= text[at] <= 'Z' && 'a' <= text[at - 1] <= 'z'
}

/// The label shown for a raw one.
pub open spec fn normal_label(raw: Seq<char>) -> Seq<char> {
    let cleaned = text::trim(text::replaced(words_apart(without_aerial_prefix(raw)), '_', ' '));
    if cleaned.len() == 0 {
        general()
    } else {
        cleaned
    }
}

/// Makes a raw label readable: the aerials' prefix goes, words in camel case are parted,
/// underscores become spaces, and the ends are trimmed. Where nothing is left, the label is
/// "General".
pub fn normalize_label(raw: &str) -> (label: String)
    ensures
        label@ == normal_label(raw@),
{
    let stripped = match text::strip_prefix(raw, "AerialCategory") {
        Some(rest) => rest,
        None => match text::strip_prefix(raw, "AerialSubcategory") {
            Some(rest) => rest,
            None => match text::strip_prefix(raw, "Aerial") {
                Some(rest) => rest,
                None => raw.to_owned(),
            },
        },
    };
    let chars = text::chars_of(stripped.as_str());
    let mut spaced = String::new();
    let mut after_lower = false;
    let mut i: usize = 0;
    while i < chars.len()
        invariant
            i <= chars.len(),
            spaced@ == words_apart(chars@.take(i as int)),
            after_lower == (i > 0 && 'a' <= chars@[i - 1] <= 'z'),
        decreases chars.len() - i,
    {
        let c = chars[i];
        let ghost now = chars@.take(i + 1);
        assert(now.drop_last() =~= chars@.take(i as int));
        assert(now.last() == c);
        assert(i > 0 ==> now[i - 1] == chars@[i - 1]);
        if after_lower && 'A' <= c && c <= 'Z' {
            assert(starts_word(now, now.len() - 1));
            spaced.push(' ');
        }
        spaced.push(c);
        after_lower = 'a' <= c && c <= 'z';
        i = i + 1;
    }
    assert(chars@.take(i as int) =~= chars@);
    let plain = text::replace_char(spaced.as_str(), '_', ' ');
    let cleaned = plain.as_str().trim();
    if cleaned.is_empty() {
        "General".to_owned()
    } else {
        cleaned.to_owned()
    }
}

/// A label is never blank, has no white space at its ends and no underscore.
pub proof fn law_labels_are_readable(raw: Seq<char>)
    ensures
        !text::blank(normal_label(raw)),
        text::trim(normal_label(raw)) == normal_label(raw),
        !normal_label(raw).contains('_'),
{
    let label = normal_label(raw);
    let plain = text::replaced(words_apart(without_aerial_prefix(raw)), '_', ' ');
    text::lemma_trim(plain);
    reveal_strlit("General");
    assert(!text::white_space(label[0]) && !text::white_space(label.last()));
    assert(text::trim_start(label) == label);
    if text::trim(plain).len() > 0 && label.contains('_') {
        let i = choose|i: int| 0 <= i < label.len() && label[i] == '_';
        assert(plain.contains(text::trim(plain)[i]));
    }
}

// ---------------------------------------------------------------------------------------------
// File names
// ---------------------------------------------------------------------------------------------
/// The characters that no file name may hold.
pub open spec fn unsafe_in_name(c: char) -> bool {
    ||| c == '/'
    ||| c == '\\'
    ||| c == ':'
    ||| c == '*'
    ||| c == '?'
    ||| c == '"'
    ||| c == '<'
    ||| c == '>'
    ||| c == '|'
    ||| text::control(c)
}

/// A name with an underscore in place of each unsafe character.
pub open spec fn with_safe_characters(name: Seq<char>) -> Seq<char> {
    Seq::new(
        name.len(),
        |i: int|
            if unsafe_in_name(name[i]) {
                '_'
            } else {
                name[i]
            },
    )
}

/// `text` without the `c`s at its front.
pub open spec fn strip_start(text: Seq<char>, c: char) -> Seq<char>
    decreases text.len(),
{
    if text.len() > 0 && text[0] == c {
        strip_start(text.drop_first(), c)
    } else {
        text
    }
}

/// `text` without the `c`s at its end.
pub open spec fn strip_end(text: Seq<char>, c: char) -> Seq<char>
    decreases text.len(),
{
    if text.len() > 0 && text.last() == c {
        strip_end(text.drop_last(), c)
    } else {
        text
    }
}

/// The file name made of `name`.
pub open spec fn safe_name(name: Seq<char>) -> Seq<char> {
    strip_end(strip_start(with_safe_characters(name), '_'), '_')
}

/// Makes a name fit for a file: unsafe characters become underscores, and underscores at either
/// end go.
pub fn sanitize_filename(name: &str) -> (out: String)
    ensures
        out@ == safe_name(name@),
{
    let chars = text::chars_of(name);
    let mut safe: Vec<char> = Vec::new();
    let mut i: usize = 0;
    while i < chars.len()
        invariant
            i <= chars.len(),
            chars@ == name@,
            safe@ == with_safe_characters(name@).take(i as int),
        decreases chars.len() - i,
    {
        let c = chars[i];
        let replacement = match c {
            '/' | '\\' | ':' | '*' | '?' | '"' | '<' | '>' | '|' => '_',
            _ => if c.is_control() {
                '_'
            } else {
                c
            },
        };
        safe.push(replacement);
        i = i + 1;
        assert(with_safe_characters(name@).take(i as int) =~= with_safe_characters(name@).take(
            i - 1,
        ).push(with_safe_characters(name@)[i - 1]));
    }
    assert(with_safe_characters(name@).take(i as int) =~= with_safe_characters(name@));
    let ghost goal = safe_name(name@);
    let mut from: usize = 0;
    assert(safe@.skip(0) =~= safe@);
    while from < safe.len() && safe[from] == '_'
        invariant
            from <= safe.len(),
            goal == strip_end(strip_start(safe@.skip(from as int), '_'), '_'),
        decreases safe.len() - from,
    {
        assert(safe@.skip(from as int).drop_first() =~= safe@.skip(from + 1));
        from = from + 1;
    }
    assert(strip_start(safe@.skip(from as int), '_') == safe@.skip(from as int));
    let mut to: usize = safe.len();
    assert(safe@.subrange(from as int, to as int) =~= safe@.skip(from as int));
    while from < to && safe[to - 1] == '_'
        invariant
            from <= to <= safe.len(),
            goal == strip_end(safe@.subrange(from as int, to as int), '_'),
        decreases to,
    {
        assert(safe@.subrange(from as int, to as int).drop_last() =~= safe@.subrange(
            from as int,
            to - 1,
        ));
        to = to - 1;
    }
    text::text_of(&safe, from, to)
}

proof fn lemma_strip_start(text: Seq<char>, c: char)
    ensures
        strip_start(text, c).len() > 0 ==> strip_start(text, c)[0] != c,
        forall|i: int|
            0 <= i < strip_start(text, c).len() ==> text.contains(
                #[trigger] strip_start(text, c)[i],
            ),
    decreases text.len(),
{
    if text.len() > 0 && text[0] == c {
        let rest = text.drop_first();
        lemma_strip_start(rest, c);
        assert forall|i: int| 0 <= i < strip_start(text, c).len() implies text.contains(
            #[trigger] strip_start(text, c)[i],
        ) by {
            let k = choose|k: int| 0 <= k < rest.len() && rest[k] == strip_start(rest, c)[i];
            assert(rest.contains(strip_start(rest, c)[i]));
            assert(text[k + 1] == rest[k]);
        }
    }
}

proof fn lemma_strip_end(text: Seq<char>, c: char)
    ensures
        strip_end(text, c).len() <= text.len(),
        strip_end(text, c) == text.take(strip_end(text, c).len() as int),
        strip_end(text, c).len() > 0 ==> strip_end(text, c).last() != c,
    decreases text.len(),
{
    if text.len() > 0 && text.last() == c {
        lemma_strip_end(text.drop_last(), c);
        assert(strip_end(text, c) =~= text.take(strip_end(text, c).len() as int));
    } else {
        assert(text.take(text.len() as int) =~= text);
    }
}

/// A sanitized name holds no unsafe character, and no underscore stands at either end.
pub proof fn law_names_are_safe(name: Seq<char>)
    ensures
        forall|i: int| 0 <= i < safe_name(name).len() ==> !unsafe_in_name(
            #[trigger] safe_name(name)[i],
        ),
        safe_name(name).len() > 0 ==> safe_name(name)[0] != '_' && safe_name(name).last() != '_',
{
    let safe = with_safe_characters(name);
    let tail = strip_start(safe, '_');
    lemma_strip_start(safe, '_');
    lemma_strip_end(tail, '_');
    assert forall|i: int| 0 <= i < safe_name(name).len() implies !unsafe_in_name(
        #[trigger] safe_name(name)[i],
    ) by {
        assert(safe_name(name)[i] == tail[i]);
        assert(safe.contains(tail[i]));
    }
}

/// Sanitizing a name that was sanitized changes nothing.
pub proof fn law_sanitizing_twice_is_sanitizing_once(name: Seq<char>)
    ensures
        safe_name(safe_name(name)) == safe_name(name),
{
    law_names_are_safe(name);
    assert(with_safe_characters(safe_name(name)) =~= safe_name(name));
}

/// The part of a file name behind its last dot. A name without a dot has none, nor has one whose
/// only dot leads it, nor the name of the parent directory.
pub open spec fn file_extension(name: Seq<char>) -> Option<Seq<char>> {
    let behind_dot = text::after_last_at(name, '.');
    if behind_dot <= 1 || name == seq!['.', '.'] {
        None
    } else {
        Some(name.skip(behind_dot))
    }
}

/// The extension of a file name.
pub fn extension_of(name: &str) -> (extension: Option<String>)
    ensures
        text::text_option(extension) == file_extension(name@),
{
    let chars = text::chars_of(name);
    let behind_dot = text::find_after_last(&chars, '.');
    if behind_dot <= 1 {
        return None;
    }
    if chars.len() == 2 && chars[0] == '.' && chars[1] == '.' {
        assert(chars@ =~= seq!['.', '.']);
        return None;
    }
    let extension = text::text_of(&chars, behind_dot, chars.len());
    assert(chars@.subrange(behind_dot as int, chars@.len() as int) =~= chars@.skip(
        behind_dot as int,
    ));
    Some(extension)
}

/// The extension, dot and all, of the file that a URL names: "mov" where it shows none. The query
/// does not count.
pub open spec fn url_extension(url: Seq<char>) -> Seq<char> {
    let candidate = text::after_last(text::before_first(url, '?'), '/');
    let extension = match file_extension(candidate) {
        Some(extension) => extension,
        None => "mov"@,
    };
    seq!['.'] + extension
}

/// The extension of the file that a URL names.
pub fn extension_from_url(url: &str) -> (extension: String)
    ensures
        extension@ == url_extension(url@),
{
    let path = text::cut_before(url, '?');
    let candidate = text::cut_after(path.as_str(), '/');
    let mut out = String::new();
    out.push('.');
    match extension_of(candidate.as_str()) {
        Some(extension) => {
            out.append(extension.as_str());
        },
        None => {
            out.append("mov");
        },
    }
    assert(out@ =~= url_extension(url@));
    out
}

/// The extension of a URL starts with a dot, and holds neither a slash nor a question mark.
pub proof fn law_extensions_hold_no_slash(url: Seq<char>)
    ensures
        url_extension(url)[0] == '.',
        !url_extension(url).contains('/'),
        !url_extension(url).contains('?'),
{
    let path = text::before_first(url, '?');
    let candidate = text::after_last(path, '/');
    text::lemma_first_at(url, '?');
    text::lemma_after_last_at(path, '/');
    text::lemma_after_last_at(candidate, '.');
    reveal_strlit("mov");
    let extension = url_extension(url);
    assert forall|i: int| 0 <= i < extension.len() implies extension[i] != '/' && extension[i]
        != '?' by {
        if i > 0 {
            match file_extension(candidate) {
                Some(rest) => {
                    let behind_dot = text::after_last_at(candidate, '.');
                    let behind_slash = text::after_last_at(path, '/');
                    assert(extension[i] == rest[i - 1]);
                    assert(rest[i - 1] == candidate[behind_dot + i - 1]);
                    assert(candidate[behind_dot + i - 1] == path[behind_slash + behind_dot + i
                        - 1]);
                    assert(path[behind_slash + behind_dot + i - 1] == url[behind_slash + behind_dot
                        + i - 1]);
                },
                None => {
                    assert(extension[i] == "mov"@[i - 1]);
                },
            }
        }
    }
}

// ---------------------------------------------------------------------------------------------
// What labels keep
// ---------------------------------------------------------------------------------------------
/// The prefixes that mark a label as one of the aerials' go, the longest that fits, and only once:
/// a label with one reads like what stands behind it, and a label without one as it is. A space
/// before a label keeps it from having such a prefix, and does not count otherwise.
pub proof fn law_aerial_prefixes_go(rest: Seq<char>)
    ensures
        normal_label("AerialCategory"@ + rest) == normal_label(seq![' '] + rest),
        normal_label("AerialSubcategory"@ + rest) == normal_label(seq![' '] + rest),
        !"Category"@.is_prefix_of(rest) && !"Subcategory"@.is_prefix_of(rest) ==> normal_label(
            "Aerial"@ + rest,
        ) == normal_label(seq![' '] + rest),
        !"Aerial"@.is_prefix_of(rest) ==> normal_label(rest) == normal_label(seq![' '] + rest),
{
    let none = Seq::<char>::empty();
    lemma_label_behind_a_space(rest);
    text::law_prefixes_and_parts_are_found(none, "AerialCategory"@, rest);
    text::law_prefixes_and_parts_are_found(none, "AerialSubcategory"@, rest);
    text::law_prefixes_and_parts_are_found(none, "Aerial"@, rest);
    assert(without_aerial_prefix("AerialCategory"@ + rest) == rest);
    lemma_subcategory_is_no_category(rest);
    assert(without_aerial_prefix("AerialSubcategory"@ + rest) == rest);
    if !"Category"@.is_prefix_of(rest) && !"Subcategory"@.is_prefix_of(rest) {
        lemma_short_prefix(rest, "Category"@, "AerialCategory"@);
        lemma_short_prefix(rest, "Subcategory"@, "AerialSubcategory"@);
        assert(without_aerial_prefix("Aerial"@ + rest) == rest);
    }
    if !"Aerial"@.is_prefix_of(rest) {
        lemma_no_aerial_prefix(rest);
    }
}

/// What trimming leaves of a text, or the name of things that have none.
spec fn label_of(raw: Seq<char>) -> Seq<char> {
    let cleaned = text::trim(spaced(raw));
    if cleaned.len() == 0 {
        general()
    } else {
        cleaned
    }
}

proof fn lemma_label_behind_a_space(raw: Seq<char>)
    ensures
        normal_label(seq![' '] + raw) == label_of(raw),
{
    let one = seq![' '];
    let whole = one + raw;
    assert(!"Aerial"@.is_prefix_of(whole)) by {
        reveal_strlit("Aerial");
        if "Aerial"@.is_prefix_of(whole) {
            assert(whole.subrange(0, 6)[0] == whole[0]);
        }
    }
    lemma_no_aerial_prefix(whole);
    let none = Seq::<char>::empty();
    assert(none + one + raw =~= whole);
    lemma_words_around(none, ' ', raw);
    assert(words_apart(none) =~= none);
    assert(spaced(whole) =~= one + spaced(raw));
    let (head, tail) = text::lemma_trim_parts(spaced(raw));
    let core = text::trim(spaced(raw));
    text::lemma_trim(spaced(raw));
    assert(text::white_space(' '));
    assert(text::blank(one));
    lemma_blank_both(one, head);
    if core.len() > 0 {
        assert(spaced(whole) =~= (one + head) + core + tail);
        text::law_trimming_takes_off_the_ends(one + head, core, tail);
    } else {
        assert(spaced(whole) =~= (one + head) + tail);
        lemma_blank_both(one + head, tail);
        text::lemma_trim(spaced(whole));
    }
}

/// A label that is readable already stays as it is: one without underscores, camel case, or white
/// space at its ends. A space before it keeps it from having an aerials' prefix.
pub proof fn law_readable_labels_stay(raw: Seq<char>)
    requires
        raw.len() > 0,
        !raw.contains('_'),
        forall|i: int|
            0 < i < raw.len() ==> !('A' <= #[trigger] raw[i] <= 'Z' && 'a' <= raw[i - 1] <= 'z'),
        !text::white_space(raw[0]),
        !text::white_space(raw.last()),
    ensures
        normal_label(seq![' '] + raw) == raw,
{
    lemma_label_behind_a_space(raw);
    lemma_words_stay(raw);
    assert(text::replaced(raw, '_', ' ') =~= raw) by {
        assert forall|i: int| 0 <= i < raw.len() implies raw[i] != '_' by {
            if raw[i] == '_' {
                assert(raw.contains('_'));
            }
        }
    }
    let none = Seq::<char>::empty();
    assert(none + raw + none =~= raw);
    text::law_trimming_takes_off_the_ends(none, raw, none);
}

proof fn lemma_no_aerial_prefix(raw: Seq<char>)
    requires
        !"Aerial"@.is_prefix_of(raw),
    ensures
        without_aerial_prefix(raw) == raw,
{
    reveal_strlit("Aerial");
    reveal_strlit("AerialCategory");
    reveal_strlit("AerialSubcategory");
    let short = "Aerial"@;
    if "AerialCategory"@.is_prefix_of(raw) {
        assert("AerialCategory"@.take(6) =~= short);
        assert(short =~= raw.subrange(0, 6));
    }
    if "AerialSubcategory"@.is_prefix_of(raw) {
        assert("AerialSubcategory"@.take(6) =~= short);
        assert(short =~= raw.subrange(0, 6));
    }
}

proof fn lemma_words_stay(raw: Seq<char>)
    requires
        forall|i: int|
            0 < i < raw.len() ==> !('A' <= #[trigger] raw[i] <= 'Z' && 'a' <= raw[i - 1] <= 'z'),
    ensures
        words_apart(raw) == raw,
    decreases raw.len(),
{
    if raw.len() > 0 {
        let front = raw.drop_last();
        assert forall|i: int| 0 < i < front.len() implies !('A' <= #[trigger] front[i] <= 'Z' && 'a'
            <= front[i - 1] <= 'z') by {
            assert(front[i] == raw[i]);
        }
        lemma_words_stay(front);
        assert(raw.len() > 1 ==> !('A' <= raw[raw.len() - 1] <= 'Z' && 'a' <= raw[raw.len() - 2]
            <= 'z'));
        assert(words_apart(raw) =~= raw);
    }
}

proof fn lemma_words_of_both(left: Seq<char>, right: Seq<char>)
    ensures
        words_apart(left + right) == if left.len() > 0 && right.len() > 0 && starts_word(
            left + right,
            left.len() as int,
        ) {
            words_apart(left) + seq![' '] + words_apart(right)
        } else {
            words_apart(left) + words_apart(right)
        },
    decreases right.len(),
{
    let both = left + right;
    if right.len() == 0 {
        assert(both =~= left);
        assert(words_apart(left) + words_apart(right) =~= words_apart(left));
    } else {
        let front = right.drop_last();
        lemma_words_of_both(left, front);
        assert(both.drop_last() =~= left + front);
        assert(both.last() == right.last());
        if right.len() > 1 {
            assert(starts_word(both, both.len() - 1) == starts_word(right, right.len() - 1));
            assert(starts_word(left + front, left.len() as int) == starts_word(
                both,
                left.len() as int,
            ));
        } else {
            assert(front =~= Seq::<char>::empty());
            assert(words_apart(front) =~= Seq::<char>::empty());
            assert(left.len() == 0 ==> !starts_word(both, both.len() - 1));
        }
        let goal = if left.len() > 0 && starts_word(both, left.len() as int) {
            words_apart(left) + seq![' '] + words_apart(right)
        } else {
            words_apart(left) + words_apart(right)
        };
        assert(words_apart(both) =~= goal);
    }
}

proof fn lemma_one_letter(c: char)
    ensures
        words_apart(seq![c]) == seq![c],
{
    reveal_with_fuel(words_apart, 2);
    assert(seq![c].drop_last() =~= Seq::<char>::empty());
    assert(words_apart(seq![c]) =~= seq![c]);
}

proof fn lemma_words_keep_their_ends(raw: Seq<char>)
    requires
        raw.len() > 0,
    ensures
        words_apart(raw).len() > 0,
        words_apart(raw)[0] == raw[0],
        words_apart(raw).last() == raw.last(),
    decreases raw.len(),
{
    if raw.len() > 1 {
        lemma_words_keep_their_ends(raw.drop_last());
    } else {
        lemma_one_letter(raw[0]);
        assert(raw =~= seq![raw[0]]);
    }
}

/// A raw label with its words apart and its underscores made spaces.
spec fn spaced(raw: Seq<char>) -> Seq<char> {
    text::replaced(words_apart(raw), '_', ' ')
}

/// Where a capital follows a small letter, a label is parted: it is the label of what stands
/// before, a space, and the label of what stands behind. A space before each keeps them from having
/// an aerials' prefix.
pub proof fn law_camel_case_is_parted(left: Seq<char>, right: Seq<char>)
    requires
        left.len() > 0,
        right.len() > 0,
        'a' <= left.last() <= 'z',
        'A' <= right[0] <= 'Z',
    ensures
        normal_label(seq![' '] + (left + right)) == normal_label(seq![' '] + left) + seq![' ']
            + normal_label(seq![' '] + right),
{
    lemma_label_behind_a_space(left);
    lemma_label_behind_a_space(right);
    lemma_label_behind_a_space(left + right);
    assert(starts_word(left + right, left.len() as int));
    lemma_words_of_both(left, right);
    lemma_words_keep_their_ends(left);
    lemma_words_keep_their_ends(right);
    let first = spaced(left);
    let second = spaced(right);
    assert(spaced(left + right) =~= first + seq![' '] + second);
    assert(first.last() == left.last());
    assert(second[0] == right[0]);
    let (before, tail) = text::lemma_trim_parts(first);
    let (head, after) = text::lemma_trim_parts(second);
    text::lemma_trim(first);
    text::lemma_trim(second);
    assert(!text::white_space(first[first.len() - 1]));
    assert(!text::white_space(second[0]));
    assert(tail.len() == 0) by {
        if tail.len() > 0 {
            assert(first.last() == tail[tail.len() - 1]);
        }
    }
    assert(head.len() == 0) by {
        if head.len() > 0 {
            assert(second[0] == head[0]);
        }
    }
    let core = text::trim(first) + seq![' '] + text::trim(second);
    assert(first + seq![' '] + second =~= before + core + after);
    assert(text::trim(first).len() > 0) by {
        if text::trim(first).len() == 0 {
            assert(first.last() == before[before.len() - 1]);
        }
    }
    assert(text::trim(second).len() > 0) by {
        if text::trim(second).len() == 0 {
            assert(second[0] == after[0]);
        }
    }
    assert(core[0] == text::trim(first)[0]);
    assert(core.last() == text::trim(second).last());
    text::law_trimming_takes_off_the_ends(before, core, after);
}

/// An underscore reads as a space. A space before the label keeps it from having an aerials'
/// prefix.
pub proof fn law_underscores_read_as_spaces(left: Seq<char>, right: Seq<char>)
    ensures
        normal_label(seq![' '] + (left + seq!['_'] + right)) == normal_label(
            seq![' '] + (left + seq![' '] + right),
        ),
{
    lemma_label_behind_a_space(left + seq!['_'] + right);
    lemma_label_behind_a_space(left + seq![' '] + right);
    lemma_words_around(left, '_', right);
    lemma_words_around(left, ' ', right);
    assert(spaced(left + seq!['_'] + right) =~= spaced(left + seq![' '] + right));
}

proof fn lemma_words_around(left: Seq<char>, c: char, right: Seq<char>)
    requires
        !('a' <= c <= 'z'),
        !('A' <= c <= 'Z'),
    ensures
        words_apart(left + seq![c] + right) == words_apart(left) + seq![c] + words_apart(right),
{
    let head = left + seq![c];
    lemma_words_of_both(head, right);
    lemma_words_of_both(left, seq![c]);
    lemma_one_letter(c);
    assert(left.len() > 0 ==> !starts_word(head, left.len() as int));
    assert((head + right)[head.len() - 1] == c);
    assert(!starts_word(head + right, head.len() as int));
}

/// White space around a label does not count; a label of white space only is that of things that
/// have no name. A space before the label keeps it from having an aerials' prefix.
pub proof fn law_white_space_around_labels_goes(
    before: Seq<char>,
    raw: Seq<char>,
    after: Seq<char>,
)
    requires
        text::blank(before),
        text::blank(after),
    ensures
        normal_label(seq![' '] + (before + raw + after)) == normal_label(seq![' '] + raw),
        text::blank(raw) ==> normal_label(seq![' '] + raw) == "General"@,
{
    lemma_label_behind_a_space(raw);
    lemma_label_behind_a_space(before + raw + after);
    lemma_blank_words(before);
    lemma_blank_words(after);
    lemma_words_of_both(before, raw);
    lemma_words_of_both(before + raw, after);
    assert(before.len() > 0 ==> text::white_space(before[before.len() - 1]));
    assert(after.len() > 0 ==> text::white_space(after[0]));
    assert(before.len() > 0 && raw.len() > 0 ==> (before + raw)[before.len() - 1] == before.last());
    assert(after.len() > 0 ==> (before + raw + after)[(before + raw).len() as int] == after[0]);
    let all = spaced(before + raw + after);
    assert(all =~= before + spaced(raw) + after);
    let (head, tail) = text::lemma_trim_parts(spaced(raw));
    let core = text::trim(spaced(raw));
    text::lemma_trim(spaced(raw));
    lemma_blank_both(before, head);
    lemma_blank_both(tail, after);
    if core.len() > 0 {
        assert(all =~= (before + head) + core + (tail + after));
        text::law_trimming_takes_off_the_ends(before + head, core, tail + after);
    } else {
        assert(all =~= (before + head) + (tail + after));
        lemma_blank_both(before + head, tail + after);
        text::lemma_trim(all);
    }
    if text::blank(raw) {
        lemma_blank_words(raw);
    }
}

proof fn lemma_blank_both(left: Seq<char>, right: Seq<char>)
    requires
        text::blank(left),
        text::blank(right),
    ensures
        text::blank(left + right),
{
    assert forall|i: int| 0 <= i < (left + right).len() implies text::white_space(
        #[trigger] (left + right)[i],
    ) by {
        if i < left.len() {
            assert((left + right)[i] == left[i]);
        } else {
            assert((left + right)[i] == right[i - left.len()]);
        }
    }
}

proof fn lemma_blank_words(raw: Seq<char>)
    requires
        text::blank(raw),
    ensures
        words_apart(raw) == raw,
        spaced(raw) == raw,
        text::trim(raw).len() == 0,
{
    assert forall|i: int| 0 < i < raw.len() implies !('A' <= #[trigger] raw[i] <= 'Z' && 'a'
        <= raw[i - 1] <= 'z') by {
        assert(text::white_space(raw[i]));
    }
    lemma_words_stay(raw);
    assert(text::replaced(raw, '_', ' ') =~= raw) by {
        assert forall|i: int| 0 <= i < raw.len() implies raw[i] != '_' by {
            assert(text::white_space(raw[i]));
        }
    }
    text::lemma_trim(raw);
}

proof fn lemma_subcategory_is_no_category(rest: Seq<char>)
    ensures
        !"AerialCategory"@.is_prefix_of("AerialSubcategory"@ + rest),
{
    reveal_strlit("AerialCategory");
    reveal_strlit("AerialSubcategory");
    let long = "AerialSubcategory"@ + rest;
    assert(long[6] == 'S');
    assert("AerialCategory"@[6] == 'C');
    if "AerialCategory"@.is_prefix_of(long) {
        assert(long.subrange(0, 14)[6] == long[6]);
    }
}

proof fn lemma_short_prefix(rest: Seq<char>, kind: Seq<char>, long: Seq<char>)
    requires
        !kind.is_prefix_of(rest),
        (kind == "Category"@ && long == "AerialCategory"@) || (kind == "Subcategory"@ && long
            == "AerialSubcategory"@),
    ensures
        !long.is_prefix_of("Aerial"@ + rest),
{
    assert("Aerial"@.len() == 6) by {
        reveal_strlit("Aerial");
    }
    assert(long =~= "Aerial"@ + kind) by {
        reveal_strlit("Aerial");
        reveal_strlit("AerialCategory");
        reveal_strlit("AerialSubcategory");
        reveal_strlit("Category");
        reveal_strlit("Subcategory");
    }
    let raw = "Aerial"@ + rest;
    if long.is_prefix_of(raw) {
        let count = kind.len() as int;
        assert(raw.len() >= 6 + count);
        assert forall|i: int| 0 <= i < count implies kind[i] == rest[i] by {
            assert(raw.subrange(0, long.len() as int)[i + 6] == long[i + 6]);
            assert(raw[i + 6] == rest[i]);
            assert(long[i + 6] == kind[i]);
        }
        assert(kind =~= rest.subrange(0, count));
    }
}

// ---------------------------------------------------------------------------------------------
// What file names keep
// ---------------------------------------------------------------------------------------------
/// The characters that no file name may hold are those that separate paths or drives, those that
/// shells and file systems read otherwise, and the control characters.
pub proof fn law_unsafe_characters(c: char)
    ensures
        unsafe_in_name(c) == (seq!['/', '\\', ':', '*', '?', '"', '<', '>', '|'].contains(c) || c
            as u32 <= 31 || (127 <= c as u32 && c as u32 <= 159)),
{
    let listed = seq!['/', '\\', ':', '*', '?', '"', '<', '>', '|'];
    assert(listed[0] == '/' && listed[1] == '\\' && listed[2] == ':' && listed[3] == '*');
    assert(listed[4] == '?' && listed[5] == '"' && listed[6] == '<' && listed[7] == '>');
    assert(listed[8] == '|');
}

/// A sanitized name is the name, with an underscore for each unsafe character, without the
/// underscores at its ends: nothing between the ends is lost, moved or changed otherwise.
pub proof fn law_sanitizing_keeps_what_is_safe(name: Seq<char>) -> (kept: (int, int))
    ensures
        0 <= kept.0 <= kept.1 <= name.len(),
        safe_name(name).len() == kept.1 - kept.0,
        forall|i: int|
            0 <= i < safe_name(name).len() ==> #[trigger] safe_name(name)[i] == if unsafe_in_name(
                name[kept.0 + i],
            ) {
                '_'
            } else {
                name[kept.0 + i]
            },
        forall|i: int|
            (0 <= i < kept.0 || kept.1 <= i < name.len()) ==> unsafe_in_name(#[trigger] name[i])
                || name[i] == '_',
{
    let safe = with_safe_characters(name);
    let tail = strip_start(safe, '_');
    let from = lemma_stripped_start(safe, '_');
    let to = lemma_stripped_end(tail, '_');
    assert forall|i: int| (0 <= i < from || from + to <= i < name.len()) implies unsafe_in_name(
        #[trigger] name[i],
    ) || name[i] == '_' by {
        assert(safe[i] == '_') by {
            if i >= from {
                assert(tail[i - from] == safe[i]);
            }
        }
    }
    (from, from + to)
}

proof fn lemma_stripped_start(text: Seq<char>, c: char) -> (from: int)
    ensures
        0 <= from <= text.len(),
        strip_start(text, c) == text.skip(from),
        forall|i: int| 0 <= i < from ==> #[trigger] text[i] == c,
    decreases text.len(),
{
    if text.len() > 0 && text[0] == c {
        let rest = text.drop_first();
        let more = lemma_stripped_start(rest, c);
        assert(strip_start(text, c) =~= text.skip(more + 1));
        assert forall|i: int| 0 <= i < more + 1 implies #[trigger] text[i] == c by {
            if i > 0 {
                assert(rest[i - 1] == text[i]);
            }
        }
        more + 1
    } else {
        assert(text.skip(0) =~= text);
        0
    }
}

proof fn lemma_stripped_end(text: Seq<char>, c: char) -> (to: int)
    ensures
        0 <= to <= text.len(),
        strip_end(text, c) == text.take(to),
        forall|i: int| to <= i < text.len() ==> #[trigger] text[i] == c,
    decreases text.len(),
{
    if text.len() > 0 && text.last() == c {
        let rest = text.drop_last();
        let less = lemma_stripped_end(rest, c);
        assert(strip_end(text, c) =~= text.take(less));
        assert forall|i: int| less <= i < text.len() implies #[trigger] text[i] == c by {
            if i < rest.len() {
                assert(rest[i] == text[i]);
            }
        }
        less
    } else {
        assert(text.take(text.len() as int) =~= text);
        text.len() as int
    }
}

/// The extension of a URL is what stands behind the last dot of the file that it names, whatever
/// directory that is in and whatever the query is.
pub proof fn law_urls_show_their_extension(
    directory: Seq<char>,
    stem: Seq<char>,
    extension: Seq<char>,
    query: Seq<char>,
)
    requires
        directory.len() == 0 || directory.last() == '/',
        !directory.contains('?'),
        stem.len() > 0,
        !stem.contains('/') && !stem.contains('?'),
        !extension.contains('/') && !extension.contains('?') && !extension.contains('.'),
        !(stem == seq!['.'] && extension.len() == 0),
        query.len() == 0 || query[0] == '?',
    ensures
        url_extension(directory + (stem + seq!['.'] + extension) + query) == seq!['.'] + extension,
{
    let name = stem + seq!['.'] + extension;
    assert forall|i: int| 0 <= i < name.len() implies name[i] != '/' && name[i] != '?' by {
        if i < stem.len() {
            assert(stem.contains(stem[i]));
        } else if i > stem.len() {
            assert(extension.contains(extension[i - stem.len() - 1]));
        }
    }
    lemma_url_name(directory, name, query);
    law_extensions_stand_behind_the_last_dot(stem, extension);
}

/// The extension of a file name is what stands behind its last dot.
pub proof fn law_extensions_stand_behind_the_last_dot(stem: Seq<char>, extension: Seq<char>)
    requires
        stem.len() > 0,
        !extension.contains('.'),
        !(stem == seq!['.'] && extension.len() == 0),
    ensures
        file_extension(stem + seq!['.'] + extension) == Some(extension),
{
    let name = stem + seq!['.'] + extension;
    text::lemma_after_last_at(name, '.');
    let at = text::after_last_at(name, '.');
    assert(name[stem.len() as int] == '.');
    assert(at == stem.len() + 1) by {
        if at > stem.len() + 1 {
            assert(extension[at - 1 - stem.len() - 1] == '.');
            assert(extension.contains('.'));
        }
    }
    assert(name != seq!['.', '.']) by {
        if name == seq!['.', '.'] {
            assert(name.len() == 2);
            assert(name[0] == '.');
            assert(stem =~= seq!['.']);
        }
    }
    assert(name.skip(at) =~= extension);
}

/// A URL whose file has no dot but perhaps at its front counts as one of a movie, and so does one
/// that ends with the name of the directory above.
pub proof fn law_urls_without_extension_are_movies(
    directory: Seq<char>,
    name: Seq<char>,
    query: Seq<char>,
)
    requires
        directory.len() == 0 || directory.last() == '/',
        !directory.contains('?'),
        !name.contains('/') && !name.contains('?'),
        name == seq!['.', '.'] || forall|i: int| 0 < i < name.len() ==> #[trigger] name[i] != '.',
        query.len() == 0 || query[0] == '?',
    ensures
        url_extension(directory + name + query) == ".mov"@,
{
    reveal_strlit("mov");
    reveal_strlit(".mov");
    assert forall|i: int| 0 <= i < name.len() implies name[i] != '/' && name[i] != '?' by {
        assert(name.contains(name[i]));
    }
    lemma_url_name(directory, name, query);
    law_names_without_an_inner_dot_have_no_extension(name);
    assert(seq!['.'] + "mov"@ =~= ".mov"@);
}

/// A file name without a dot, but perhaps at its front, has no extension, nor has the name of the
/// directory above.
pub proof fn law_names_without_an_inner_dot_have_no_extension(name: Seq<char>)
    requires
        name == seq!['.', '.'] || forall|i: int| 0 < i < name.len() ==> #[trigger] name[i] != '.',
    ensures
        file_extension(name) is None,
{
    text::lemma_after_last_at(name, '.');
    let at = text::after_last_at(name, '.');
    assert(at <= 1 || name == seq!['.', '.']) by {
        if at > 1 {
            assert(name[at - 1] == '.');
        }
    }
}

proof fn lemma_url_name(directory: Seq<char>, name: Seq<char>, query: Seq<char>)
    requires
        directory.len() == 0 || directory.last() == '/',
        !directory.contains('?'),
        forall|i: int| 0 <= i < name.len() ==> name[i] != '/' && #[trigger] name[i] != '?',
        query.len() == 0 || query[0] == '?',
    ensures
        text::after_last(text::before_first(directory + name + query, '?'), '/') == name,
{
    let path = directory + name;
    let url = path + query;
    text::lemma_first_at(url, '?');
    let at = text::first_at(url, '?');
    assert(at >= path.len()) by {
        if at < path.len() {
            if at < directory.len() {
                assert(directory.contains(directory[at]));
            } else {
                assert(name[at - directory.len()] == '?');
            }
        }
    }
    assert(query.len() > 0 ==> url[path.len() as int] == '?');
    assert(url.take(at) =~= path);
    text::lemma_after_last_at(path, '/');
    let behind = text::after_last_at(path, '/');
    assert(directory.len() > 0 ==> path[directory.len() - 1] == '/');
    if behind > directory.len() {
        assert(name[behind - 1 - directory.len()] == '/');
    }
    assert(path.skip(behind) =~= name);
}

} // verus!
