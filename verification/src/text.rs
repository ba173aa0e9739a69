//! Text as sequences of characters: the cuts, joins and numerals that the other modules need.

use vstd::prelude::*;

verus! {

// ---------------------------------------------------------------------------------------------
// What the standard library does
// ---------------------------------------------------------------------------------------------
/// The characters with the Unicode property `White_Space`.
pub open spec fn white_space(c: char) -> bool {
    ||| '\u{9}' <= c <= '\u{d}'
    ||| c == ' '
    ||| c == '\u{85}'
    ||| c == '\u{a0}'
    ||| c == '\u{1680}'
    ||| '\u{2000}' <= c <= '\u{200a}'
    ||| c == '\u{2028}'
    ||| c == '\u{2029}'
    ||| c == '\u{202f}'
    ||| c == '\u{205f}'
    ||| c == '\u{3000}'
}

/// The control characters, Unicode's general category `Cc`.
pub open spec fn control(c: char) -> bool {
    c <= '\u{1f}' || '\u{7f}' <= c <= '\u{9f}'
}

/// `text` without the white space at its front.
pub open spec fn trim_start(text: Seq<char>) -> Seq<char>
    decreases text.len(),
{
    if text.len() > 0 && white_space(text[0]) {
        trim_start(text.drop_first())
    } else {
        text
    }
}

/// `text` without the white space at its end.
pub open spec fn trim_end(text: Seq<char>) -> Seq<char>
    decreases text.len(),
{
    if text.len() > 0 && white_space(text.last()) {
        trim_end(text.drop_last())
    } else {
        text
    }
}

/// `text` without the white space at either end.
pub open spec fn trim(text: Seq<char>) -> Seq<char> {
    trim_end(trim_start(text))
}

/// The lower-case form of a text, as the standard library's Unicode tables give it.
pub uninterp spec fn lowercase(text: Seq<char>) -> Seq<char>;

/// `String::push` appends the character.
pub assume_specification[ String::push ](s: &mut String, c: char)
    ensures
        final(s)@ == old(s)@.push(c),
;

/// `str::trim` cuts off the leading and the trailing characters that Unicode counts as
/// `White_Space`.
pub assume_specification[ str::trim ](s: &str) -> (trimmed: &str)
    ensures
        trimmed@ == trim(s@),
;

/// `char::is_control` is true of the code points in Unicode's general category `Cc`.
pub assume_specification[ char::is_control ](c: char) -> (is: bool)
    ensures
        is == control(c),
;

/// `str::to_lowercase` returns the lower-case equivalent of the text. Which one that is follows
/// from Unicode's `Lowercase` mappings and is not spelled out.
pub assume_specification[ str::to_lowercase ](s: &str) -> (lower: String)
    ensures
        lower@ == lowercase(s@),
;

/// The words in which `String::from_utf8` refuses bytes.
pub uninterp spec fn utf8_refusal(bytes: Seq<u8>) -> Seq<char>;

/// What `String::from_utf8_lossy` makes of bytes.
pub uninterp spec fn utf8_lossy(bytes: Seq<u8>) -> Seq<char>;

/// The text that shows bytes: the one they encode, or what stands for it where they are not UTF-8.
pub open spec fn shown_bytes(bytes: Seq<u8>) -> Seq<char> {
    if vstd::utf8::valid_utf8(bytes) {
        vstd::utf8::decode_utf8(bytes)
    } else {
        utf8_lossy(bytes)
    }
}

/// `String::from_utf8` turns bytes that are valid UTF-8 into the text they encode, and refuses all
/// others. The words of its refusal, which `FromUtf8Error` writes, are only named.
#[verifier::external_body]
pub(crate) fn utf8_text(bytes: Vec<u8>) -> (text: Result<String, String>)
    ensures
        match text {
            Ok(text) => vstd::utf8::valid_utf8(bytes@) && text@ == vstd::utf8::decode_utf8(bytes@),
            Err(words) => !vstd::utf8::valid_utf8(bytes@) && words@ == utf8_refusal(bytes@),
        },
{
    String::from_utf8(bytes).map_err(|refusal| refusal.to_string())
}

/// `String::from_utf8_lossy` turns bytes that are valid UTF-8 into the text they encode. What it
/// puts in the place of invalid sequences is not spelled out.
#[verifier::external_body]
pub(crate) fn utf8_text_lossy(bytes: &Vec<u8>) -> (text: String)
    ensures
        text@ == utf8_lossy(bytes@),
        vstd::utf8::valid_utf8(bytes@) ==> text@ == vstd::utf8::decode_utf8(bytes@),
{
    String::from_utf8_lossy(bytes.as_slice()).into_owned()
}

// ---------------------------------------------------------------------------------------------
// Characters and equality
// ---------------------------------------------------------------------------------------------
/// The contents of a list of strings.
pub open spec fn texts(list: Seq<String>) -> Seq<Seq<char>> {
    Seq::new(list.len(), |i: int| list[i]@)
}

/// The contents of a list of string slices.
pub open spec fn words(list: Seq<&str>) -> Seq<Seq<char>> {
    Seq::new(list.len(), |i: int| list[i]@)
}

/// The content of an optional string.
pub open spec fn text_option(text: Option<String>) -> Option<Seq<char>> {
    match text {
        Some(text) => Some(text@),
        None => None,
    }
}

/// The characters of a text, one by one.
pub fn chars_of(text: &str) -> (chars: Vec<char>)
    ensures
        chars@ == text@,
{
    let mut chars: Vec<char> = Vec::new();
    for c in iter: text.chars()
        invariant
            iter.seq() == text@,
            chars@ == text@.take(iter.index() as int),
    {
        chars.push(c);
        assert(text@.take(iter.index() as int + 1) =~= text@.take(iter.index() as int).push(c));
    }
    assert(text@.take(text@.len() as int) =~= text@);
    chars
}

/// The text made of the characters `from..to`.
pub fn text_of(chars: &Vec<char>, from: usize, to: usize) -> (text: String)
    requires
        from <= to <= chars.len(),
    ensures
        text@ == chars@.subrange(from as int, to as int),
{
    let mut text = String::new();
    let mut i: usize = from;
    while i < to
        invariant
            from <= i <= to <= chars.len(),
            text@ == chars@.subrange(from as int, i as int),
        decreases to - i,
    {
        text.push(chars[i]);
        i = i + 1;
        assert(chars@.subrange(from as int, i as int) =~= chars@.subrange(from as int, i - 1).push(
            chars@[i - 1],
        ));
    }
    text
}

/// Whether two texts hold the same characters.
pub fn same_text(left: &str, right: &str) -> (same: bool)
    ensures
        same == (left@ == right@),
{
    let a = chars_of(left);
    let b = chars_of(right);
    if a.len() != b.len() {
        return false;
    }
    let mut i: usize = 0;
    while i < a.len()
        invariant
            i <= a.len() == b.len(),
            a@ == left@,
            b@ == right@,
            a@.take(i as int) == b@.take(i as int),
        decreases a.len() - i,
    {
        if a[i] != b[i] {
            assert(a@[i as int] != b@[i as int]);
            return false;
        }
        i = i + 1;
        assert(a@.take(i as int) =~= a@.take(i - 1).push(a@[i - 1]));
        assert(b@.take(i as int) =~= b@.take(i - 1).push(b@[i - 1]));
    }
    assert(a@.take(i as int) =~= a@);
    assert(b@.take(i as int) =~= b@);
    true
}

/// Whether `text` is one of `list`.
pub fn is_among(text: &str, list: &[&str]) -> (found: bool)
    ensures
        found == words(list@).contains(text@),
{
    let mut i: usize = 0;
    while i < list.len()
        invariant
            i <= list.len(),
            forall|k: int| 0 <= k < i ==> words(list@)[k] != text@,
        decreases list.len() - i,
    {
        if same_text(text, list[i]) {
            assert(words(list@)[i as int] == text@);
            return true;
        }
        i = i + 1;
    }
    false
}

/// Whether `list` holds `text`.
pub fn holds_text(list: &Vec<String>, text: &str) -> (found: bool)
    ensures
        found == texts(list@).contains(text@),
{
    let mut i: usize = 0;
    while i < list.len()
        invariant
            i <= list.len(),
            forall|k: int| 0 <= k < i ==> texts(list@)[k] != text@,
        decreases list.len() - i,
    {
        if same_text(text, list[i].as_str()) {
            assert(texts(list@)[i as int] == text@);
            return true;
        }
        i = i + 1;
    }
    false
}

// ---------------------------------------------------------------------------------------------
// Blank texts
// ---------------------------------------------------------------------------------------------
/// A text of white space only; the empty text is blank.
pub open spec fn blank(text: Seq<char>) -> bool {
    forall|i: int| 0 <= i < text.len() ==> white_space(#[trigger] text[i])
}

proof fn lemma_trim_start(text: Seq<char>)
    ensures
        trim_start(text).len() <= text.len(),
        trim_start(text) == text.skip(text.len() - trim_start(text).len()),
        blank(text.take(text.len() - trim_start(text).len())),
        trim_start(text).len() > 0 ==> !white_space(trim_start(text)[0]),
    decreases text.len(),
{
    if text.len() > 0 && white_space(text[0]) {
        let rest = text.drop_first();
        lemma_trim_start(rest);
        let cut = text.len() - trim_start(text).len();
        assert(trim_start(text) =~= text.skip(cut));
        assert forall|i: int| 0 <= i < text.take(cut).len() implies white_space(
            #[trigger] text.take(cut)[i],
        ) by {
            if i > 0 {
                assert(rest.take(cut - 1)[i - 1] == text[i]);
            }
        }
    } else {
        assert(text.skip(0) =~= text);
    }
}

proof fn lemma_trim_end(text: Seq<char>)
    ensures
        trim_end(text).len() <= text.len(),
        trim_end(text) == text.take(trim_end(text).len() as int),
        blank(text.skip(trim_end(text).len() as int)),
        trim_end(text).len() > 0 ==> !white_space(trim_end(text).last()),
    decreases text.len(),
{
    if text.len() > 0 && white_space(text.last()) {
        let rest = text.drop_last();
        lemma_trim_end(rest);
        let keep = trim_end(text).len() as int;
        assert(trim_end(text) =~= text.take(keep));
        assert forall|i: int| 0 <= i < text.skip(keep).len() implies white_space(
            #[trigger] text.skip(keep)[i],
        ) by {
            if keep + i < rest.len() {
                assert(rest.skip(keep)[i] == text[keep + i]);
            }
        }
    } else {
        assert(text.take(text.len() as int) =~= text);
    }
}

/// Trimming a text leaves nothing exactly when the text is blank; what it leaves has no white
/// space at either end.
pub proof fn lemma_trim(text: Seq<char>)
    ensures
        trim(text).len() == 0 <==> blank(text),
        trim(text).len() > 0 ==> !white_space(trim(text)[0]) && !white_space(trim(text).last()),
        forall|i: int| 0 <= i < trim(text).len() ==> text.contains(#[trigger] trim(text)[i]),
{
    let front = trim_start(text);
    lemma_trim_start(text);
    lemma_trim_end(front);
    let cut = text.len() - front.len();
    if trim(text).len() == 0 {
        if front.len() > 0 {
            assert(front.skip(0)[0] == front[0]);
        }
        assert(text.take(cut) =~= text);
    }
    if blank(text) && front.len() > 0 {
        assert(front[0] == text[cut]);
    }
    assert forall|i: int| 0 <= i < trim(text).len() implies text.contains(
        #[trigger] trim(text)[i],
    ) by {
        assert(trim(text)[i] == text[cut + i]);
    }
}

/// Whether a text is blank.
pub fn is_blank(text: &str) -> (is: bool)
    ensures
        is == blank(text@),
{
    proof {
        lemma_trim(text@);
    }
    text.trim().is_empty()
}

// ---------------------------------------------------------------------------------------------
// Cuts
// ---------------------------------------------------------------------------------------------
/// Where `c` first stands in `text`; the length of `text` if it stands nowhere.
pub open spec fn first_at<T>(text: Seq<T>, c: T) -> int
    decreases text.len(),
{
    if text.len() == 0 || text[0] == c {
        0
    } else {
        1 + first_at(text.drop_first(), c)
    }
}

/// The position behind the last `c` in `text`; 0 if it stands nowhere.
pub open spec fn after_last_at<T>(text: Seq<T>, c: T) -> int
    decreases text.len(),
{
    if text.len() == 0 {
        0
    } else if text.last() == c {
        text.len() as int
    } else {
        after_last_at(text.drop_last(), c)
    }
}

/// The part of `text` before the first `c`; all of it where there is none.
pub open spec fn before_first(text: Seq<char>, c: char) -> Seq<char> {
    text.take(first_at(text, c))
}

/// The part of `text` after the last `c`; all of it where there is none.
pub open spec fn after_last(text: Seq<char>, c: char) -> Seq<char> {
    text.skip(after_last_at(text, c))
}

/// `first_at` is the first position of `c`, or the length.
pub proof fn lemma_first_at<T>(text: Seq<T>, c: T)
    ensures
        0 <= first_at(text, c) <= text.len(),
        forall|i: int| 0 <= i < first_at(text, c) ==> #[trigger] text[i] != c,
        first_at(text, c) < text.len() ==> text[first_at(text, c)] == c,
    decreases text.len(),
{
    if text.len() > 0 && text[0] != c {
        let rest = text.drop_first();
        lemma_first_at(rest, c);
        assert forall|i: int| 0 <= i < first_at(text, c) implies #[trigger] text[i] != c by {
            if i > 0 {
                assert(rest[i - 1] == text[i]);
            }
        }
    }
}

/// `after_last_at` is one behind the last position of `c`, or 0.
pub proof fn lemma_after_last_at<T>(text: Seq<T>, c: T)
    ensures
        0 <= after_last_at(text, c) <= text.len(),
        forall|i: int| after_last_at(text, c) <= i < text.len() ==> #[trigger] text[i] != c,
        after_last_at(text, c) > 0 ==> text[after_last_at(text, c) - 1] == c,
    decreases text.len(),
{
    if text.len() > 0 && text.last() != c {
        let rest = text.drop_last();
        lemma_after_last_at(rest, c);
        assert forall|i: int| after_last_at(text, c) <= i < text.len() implies #[trigger] text[i]
            != c by {
            if i < rest.len() {
                assert(rest[i] == text[i]);
            }
        }
    }
}

/// The position of the first `c`, or the length.
pub fn find_first(chars: &Vec<char>, c: char) -> (at: usize)
    ensures
        at == first_at(chars@, c),
        at <= chars.len(),
{
    let mut at: usize = 0;
    proof {
        lemma_first_at(chars@, c);
    }
    while at < chars.len() && chars[at] != c
        invariant
            at <= first_at(chars@, c) <= chars.len(),
            first_at(chars@, c) < chars.len() ==> chars@[first_at(chars@, c)] == c,
            forall|i: int| 0 <= i < first_at(chars@, c) ==> #[trigger] chars@[i] != c,
        decreases chars.len() - at,
    {
        at = at + 1;
    }
    at
}

/// The position behind the last `c`, or 0.
pub fn find_after_last(chars: &Vec<char>, c: char) -> (at: usize)
    ensures
        at == after_last_at(chars@, c),
        at <= chars.len(),
{
    let mut at: usize = chars.len();
    proof {
        lemma_after_last_at(chars@, c);
    }
    while at > 0 && chars[at - 1] != c
        invariant
            after_last_at(chars@, c) <= at <= chars.len(),
            after_last_at(chars@, c) > 0 ==> chars@[after_last_at(chars@, c) - 1] == c,
            forall|i: int|
                after_last_at(chars@, c) <= i < chars@.len() ==> #[trigger] chars@[i] != c,
        decreases at,
    {
        at = at - 1;
    }
    at
}

/// Cuts a text off before the first `c`.
pub fn cut_before(text: &str, c: char) -> (part: String)
    ensures
        part@ == before_first(text@, c),
{
    let chars = chars_of(text);
    let at = find_first(&chars, c);
    text_of(&chars, 0, at)
}

/// Keeps what stands behind the last `c`.
pub fn cut_after(text: &str, c: char) -> (part: String)
    ensures
        part@ == after_last(text@, c),
{
    let chars = chars_of(text);
    let at = find_after_last(&chars, c);
    let part = text_of(&chars, at, chars.len());
    assert(chars@.subrange(at as int, chars@.len() as int) =~= chars@.skip(at as int));
    part
}

/// `text` without `prefix`, where it starts with it.
pub open spec fn without_prefix(text: Seq<char>, prefix: Seq<char>) -> Option<Seq<char>> {
    if prefix.is_prefix_of(text) {
        Some(text.skip(prefix.len() as int))
    } else {
        None
    }
}

/// Whether a text starts with `prefix`.
pub fn starts_with(text: &str, prefix: &str) -> (starts: bool)
    ensures
        starts == prefix@.is_prefix_of(text@),
{
    let chars = chars_of(text);
    let head = chars_of(prefix);
    if head.len() > chars.len() {
        return false;
    }
    let mut i: usize = 0;
    while i < head.len()
        invariant
            i <= head.len() <= chars.len(),
            chars@ == text@,
            head@ == prefix@,
            forall|k: int| 0 <= k < i ==> head@[k] == chars@[k],
        decreases head.len() - i,
    {
        if chars[i] != head[i] {
            assert(chars@.subrange(0, head@.len() as int)[i as int] == chars@[i as int]);
            return false;
        }
        i = i + 1;
    }
    assert(head@ =~= chars@.subrange(0, head@.len() as int));
    true
}

/// Takes `prefix` off a text that starts with it.
pub fn strip_prefix(text: &str, prefix: &str) -> (rest: Option<String>)
    ensures
        text_option(rest) == without_prefix(text@, prefix@),
{
    if starts_with(text, prefix) {
        let chars = chars_of(text);
        let head = chars_of(prefix);
        let rest = text_of(&chars, head.len(), chars.len());
        assert(chars@.subrange(head@.len() as int, chars@.len() as int) =~= chars@.skip(
            head@.len() as int,
        ));
        Some(rest)
    } else {
        None
    }
}

/// Whether `part` stands somewhere in `text`.
pub open spec fn has_part(text: Seq<char>, part: Seq<char>) -> bool {
    exists|at: int| stands_at(text, part, at)
}

/// Whether `part` stands in `text` from position `at` on.
pub open spec fn stands_at(text: Seq<char>, part: Seq<char>, at: int) -> bool {
    0 <= at && at + part.len() <= text.len() && text.subrange(at, at + part.len()) == part
}

/// Whether a text contains `part`.
pub fn contains(text: &str, part: &str) -> (found: bool)
    ensures
        found == has_part(text@, part@),
{
    let chars = chars_of(text);
    let piece = chars_of(part);
    let mut at: usize = 0;
    while piece.len() <= chars.len() && at <= chars.len() - piece.len()
        invariant
            at <= chars.len() + 1,
            chars@ == text@,
            piece@ == part@,
            forall|k: int| 0 <= k < at ==> !stands_at(text@, part@, k),
        decreases chars.len() + 1 - at,
    {
        let slice = text_of(&chars, at, at + piece.len());
        if same_text(slice.as_str(), part) {
            assert(stands_at(text@, part@, at as int));
            return true;
        }
        if at == chars.len() - piece.len() {
            assert forall|k: int| !stands_at(text@, part@, k) by {
                if k == at {
                }
            }
            return false;
        }
        at = at + 1;
    }
    false
}

/// The first `count` characters of a text, or all of it.
pub open spec fn front(text: Seq<char>, count: nat) -> Seq<char> {
    if count < text.len() {
        text.take(count as int)
    } else {
        text
    }
}

/// Cuts a text down to its first `count` characters.
pub fn cut_front(text: &str, count: usize) -> (part: String)
    ensures
        part@ == front(text@, count as nat),
{
    let chars = chars_of(text);
    if count < chars.len() {
        text_of(&chars, 0, count)
    } else {
        text.to_owned()
    }
}

// ---------------------------------------------------------------------------------------------
// Replacement, repetition, joins
// ---------------------------------------------------------------------------------------------
/// `text` with each `from` replaced by `to`.
pub open spec fn replaced(text: Seq<char>, from: char, to: char) -> Seq<char> {
    Seq::new(
        text.len(),
        |i: int|
            if text[i] == from {
                to
            } else {
                text[i]
            },
    )
}

/// Replaces each `from` by `to`.
pub fn replace_char(text: &str, from: char, to: char) -> (out: String)
    ensures
        out@ == replaced(text@, from, to),
{
    let chars = chars_of(text);
    let mut out = String::new();
    let mut i: usize = 0;
    while i < chars.len()
        invariant
            i <= chars.len(),
            chars@ == text@,
            out@ == replaced(text@, from, to).take(i as int),
        decreases chars.len() - i,
    {
        if chars[i] == from {
            out.push(to);
        } else {
            out.push(chars[i]);
        }
        i = i + 1;
        assert(replaced(text@, from, to).take(i as int) =~= replaced(text@, from, to).take(
            i - 1,
        ).push(replaced(text@, from, to)[i - 1]));
    }
    assert(replaced(text@, from, to).take(i as int) =~= replaced(text@, from, to));
    out
}

/// `count` times the character `c`.
pub open spec fn repeated(c: char, count: nat) -> Seq<char> {
    Seq::new(count, |i: int| c)
}

/// Writes `c` `count` times.
pub fn repeat_char(c: char, count: usize) -> (out: String)
    ensures
        out@ == repeated(c, count as nat),
{
    let mut out = String::new();
    let mut i: usize = 0;
    while i < count
        invariant
            i <= count,
            out@ == repeated(c, i as nat),
        decreases count - i,
    {
        out.push(c);
        i = i + 1;
        assert(repeated(c, i as nat) =~= repeated(c, (i - 1) as nat).push(c));
    }
    assert(repeated(c, 0) =~= Seq::<char>::empty());
    out
}

/// The texts of `parts`, with `separator` between each two.
pub open spec fn joined(parts: Seq<Seq<char>>, separator: Seq<char>) -> Seq<char>
    decreases parts.len(),
{
    if parts.len() == 0 {
        Seq::empty()
    } else if parts.len() == 1 {
        parts[0]
    } else {
        joined(parts.drop_last(), separator) + separator + parts.last()
    }
}

/// Joins the texts from position `from` on.
pub fn join_from(parts: &Vec<String>, from: usize, separator: &str) -> (out: String)
    requires
        from <= parts.len(),
    ensures
        out@ == joined(texts(parts@).skip(from as int), separator@),
{
    let ghost all = texts(parts@).skip(from as int);
    let mut out = String::new();
    let mut i: usize = from;
    while i < parts.len()
        invariant
            from <= i <= parts.len(),
            all == texts(parts@).skip(from as int),
            out@ == joined(all.take(i - from), separator@),
        decreases parts.len() - i,
    {
        if i > from {
            out.append(separator);
        }
        out.append(parts[i].as_str());
        i = i + 1;
        let ghost now = all.take(i - from);
        assert(now.drop_last() =~= all.take(i - from - 1));
        assert(now.last() == parts@[i - 1]@);
        if i - from == 1 {
            assert(out@ =~= now[0]);
        }
    }
    assert(all.take(i - from) =~= all);
    out
}

// ---------------------------------------------------------------------------------------------
// Numerals
// ---------------------------------------------------------------------------------------------
/// The decimal digit of a number below ten.
pub open spec fn digit(d: nat) -> char {
    if d == 0 {
        '0'
    } else if d == 1 {
        '1'
    } else if d == 2 {
        '2'
    } else if d == 3 {
        '3'
    } else if d == 4 {
        '4'
    } else if d == 5 {
        '5'
    } else if d == 6 {
        '6'
    } else if d == 7 {
        '7'
    } else if d == 8 {
        '8'
    } else {
        '9'
    }
}

/// The decimal numeral of a number.
pub open spec fn decimal(n: nat) -> Seq<char>
    decreases n,
{
    if n < 10 {
        seq![digit(n)]
    } else {
        decimal(n / 10).push(digit(n % 10))
    }
}

fn digit_char(d: u64) -> (c: char)
    requires
        d < 10,
    ensures
        c == digit(d as nat),
{
    match d {
        0 => '0',
        1 => '1',
        2 => '2',
        3 => '3',
        4 => '4',
        5 => '5',
        6 => '6',
        7 => '7',
        8 => '8',
        _ => '9',
    }
}

/// Writes a number in decimal.
pub fn decimal_text(n: u64) -> (text: String)
    ensures
        text@ == decimal(n as nat),
    decreases n,
{
    if n < 10 {
        let mut text = String::new();
        text.push(digit_char(n));
        assert(text@ =~= seq![digit(n as nat)]);
        text
    } else {
        let mut text = decimal_text(n / 10);
        text.push(digit_char(n % 10));
        text
    }
}

/// Writes a count in decimal.
pub fn count_text(n: usize) -> (text: String)
    ensures
        text@ == decimal(n as nat),
{
    decimal_text(n as u64)
}

/// The value of a decimal digit.
pub open spec fn digit_value(c: char) -> Option<nat> {
    if '0' <= c <= '9' {
        Some((c as u32 - '0' as u32) as nat)
    } else {
        None
    }
}

/// The number that a sequence of decimal digits denotes.
pub open spec fn digits_value(text: Seq<char>) -> Option<nat>
    decreases text.len(),
{
    if text.len() == 0 {
        Some(0)
    } else {
        match (digits_value(text.drop_last()), digit_value(text.last())) {
            (Some(high), Some(low)) => Some(high * 10 + low),
            _ => None,
        }
    }
}

/// The number that a text denotes: at least one decimal digit, after one `+` at most, and nothing
/// else.
pub open spec fn unsigned_value(text: Seq<char>) -> Option<nat> {
    let digits = if text.len() > 0 && text[0] == '+' {
        text.drop_first()
    } else {
        text
    };
    if digits.len() == 0 {
        None
    } else {
        digits_value(digits)
    }
}

proof fn lemma_digits_value_monotone(text: Seq<char>, keep: int)
    requires
        0 <= keep <= text.len(),
        digits_value(text) is Some,
    ensures
        digits_value(text.take(keep)) is Some,
        digits_value(text.take(keep))->0 <= digits_value(text)->0,
    decreases text.len(),
{
    if keep == text.len() {
        assert(text.take(keep) =~= text);
    } else {
        lemma_digits_value_monotone(text.drop_last(), keep);
        assert(text.drop_last().take(keep) =~= text.take(keep));
    }
}

/// Reads a number that fits in 64 bits.
pub fn parse_unsigned(text: &str) -> (number: Option<u64>)
    ensures
        match number {
            Some(n) => unsigned_value(text@) == Some(n as nat),
            None => match unsigned_value(text@) {
                Some(n) => n > u64::MAX,
                None => true,
            },
        },
{
    let chars = chars_of(text);
    let start: usize = if chars.len() > 0 && chars[0] == '+' {
        1
    } else {
        0
    };
    let ghost digits = chars@.skip(start as int);
    assert(chars@.skip(1) =~= chars@.drop_first() || chars@.len() == 0);
    assert(chars@.skip(0) =~= chars@);
    if start == chars.len() {
        return None;
    }
    let mut value: u64 = 0;
    let mut i: usize = start;
    while i < chars.len()
        invariant
            start <= i <= chars.len(),
            start < chars.len(),
            digits == chars@.skip(start as int),
            unsigned_value(text@) == digits_value(digits),
            digits_value(digits.take(i - start)) == Some(value as nat),
        decreases chars.len() - i,
    {
        let c = chars[i];
        let ghost next = digits.take(i - start + 1);
        assert(next.drop_last() =~= digits.take(i - start));
        assert(next.last() == c);
        proof {
            if digits_value(digits) is Some {
                lemma_digits_value_monotone(digits, i - start + 1);
            }
        }
        if !('0' <= c && c <= '9') {
            return None;
        }
        let low = (c as u32 - '0' as u32) as u64;
        assert(digits_value(next) == Some((value * 10 + low) as nat));
        value = match value.checked_mul(10) {
            Some(high) => match high.checked_add(low) {
                Some(sum) => sum,
                None => {
                    return None;
                },
            },
            None => {
                return None;
            },
        };
        i = i + 1;
    }
    assert(digits.take(i - start) =~= digits);
    Some(value)
}

proof fn lemma_digits_of_decimal(n: nat, zeros: nat)
    ensures
        digits_value(repeated('0', zeros) + decimal(n)) == Some(n),
        forall|i: int| 0 <= i < decimal(n).len() ==> '0' <= #[trigger] decimal(n)[i] <= '9',
        decimal(n).len() > 0,
    decreases n,
{
    let text = repeated('0', zeros) + decimal(n);
    if n < 10 {
        lemma_zeros(zeros);
        assert(text.drop_last() =~= repeated('0', zeros));
        assert(text.last() == digit(n));
    } else {
        lemma_digits_of_decimal(n / 10, zeros);
        assert(text.drop_last() =~= repeated('0', zeros) + decimal(n / 10));
        assert(text.last() == digit(n % 10));
        assert forall|i: int| 0 <= i < decimal(n).len() implies '0' <= #[trigger] decimal(n)[i]
            <= '9' by {
            if i < decimal(n / 10).len() {
                assert(decimal(n)[i] == decimal(n / 10)[i]);
            }
        }
    }
}

proof fn lemma_zeros(count: nat)
    ensures
        digits_value(repeated('0', count)) == Some(0nat),
    decreases count,
{
    if count > 0 {
        lemma_zeros((count - 1) as nat);
        assert(repeated('0', count).drop_last() =~= repeated('0', (count - 1) as nat));
    }
}

/// A number that was written in decimal is read back, with or without a plus sign and with any
/// zeros before it.
pub proof fn law_decimals_are_read_back(n: nat, zeros: nat)
    ensures
        unsigned_value(repeated('0', zeros) + decimal(n)) == Some(n),
        unsigned_value(seq!['+'] + (repeated('0', zeros) + decimal(n))) == Some(n),
{
    let text = repeated('0', zeros) + decimal(n);
    lemma_digits_of_decimal(n, zeros);
    assert(text[0] == if zeros > 0 {
        '0'
    } else {
        decimal(n)[0]
    });
    assert((seq!['+'] + text).drop_first() =~= text);
}

/// The decimal numeral of a number below ten is one character, the digit of that value; that of a
/// larger one is the numeral of its tens followed by that of its ones.
pub proof fn law_decimals_are_digits(tens: nat, ones: nat)
    requires
        ones < 10,
    ensures
        decimal(ones).len() == 1,
        decimal(ones)[0] as u32 == '0' as u32 + ones,
        tens > 0 ==> decimal(10 * tens + ones) == decimal(tens) + decimal(ones),
{
    if tens > 0 {
        let n = (10 * tens + ones) as nat;
        assert(n / 10 == tens && n % 10 == ones);
        assert(decimal(n) =~= decimal(tens) + decimal(ones));
    }
}

/// A text that is empty, or has anything but digits behind a plus sign at most, is no number.
pub proof fn law_only_digits_are_numbers(text: Seq<char>, at: int)
    requires
        text.len() == 0 || (0 <= at < text.len() && !('0' <= text[at] <= '9') && (text[at] != '+'
            || at > 0 || text.len() == 1)),
    ensures
        unsigned_value(text) is None,
{
    if text.len() > 0 {
        if text[0] == '+' {
            let digits = text.drop_first();
            if at > 0 {
                assert(digits[at - 1] == text[at]);
                lemma_no_digits(digits, at - 1);
            }
        } else {
            lemma_no_digits(text, at);
        }
    }
}

proof fn lemma_no_digits(text: Seq<char>, at: int)
    requires
        0 <= at < text.len(),
        !('0' <= text[at] <= '9'),
    ensures
        digits_value(text) is None,
    decreases text.len(),
{
    if at < text.len() - 1 {
        lemma_no_digits(text.drop_last(), at);
    }
}

proof fn lemma_trim_start_of_both(before: Seq<char>, rest: Seq<char>)
    requires
        blank(before),
        rest.len() > 0,
        !white_space(rest[0]),
    ensures
        trim_start(before + rest) == rest,
    decreases before.len(),
{
    if before.len() == 0 {
        assert(before + rest =~= rest);
    } else {
        let fewer = before.drop_first();
        assert forall|i: int| 0 <= i < fewer.len() implies white_space(#[trigger] fewer[i]) by {
            assert(fewer[i] == before[i + 1]);
        }
        lemma_trim_start_of_both(fewer, rest);
        assert((before + rest).drop_first() =~= fewer + rest);
        assert(white_space(before[0]));
    }
}

proof fn lemma_trim_end_of_both(rest: Seq<char>, after: Seq<char>)
    requires
        blank(after),
        rest.len() > 0,
        !white_space(rest.last()),
    ensures
        trim_end(rest + after) == rest,
    decreases after.len(),
{
    if after.len() == 0 {
        assert(rest + after =~= rest);
    } else {
        let fewer = after.drop_last();
        assert forall|i: int| 0 <= i < fewer.len() implies white_space(#[trigger] fewer[i]) by {
            assert(fewer[i] == after[i]);
        }
        lemma_trim_end_of_both(rest, fewer);
        assert((rest + after).drop_last() =~= rest + fewer);
        assert(white_space(after[after.len() - 1]));
    }
}

/// Trimming takes the white space off both ends, and nothing else.
pub proof fn law_trimming_takes_off_the_ends(
    before: Seq<char>,
    core: Seq<char>,
    after: Seq<char>,
)
    requires
        blank(before),
        blank(after),
        core.len() > 0,
        !white_space(core[0]),
        !white_space(core.last()),
    ensures
        trim(before + core + after) == core,
{
    assert(before + core + after =~= before + (core + after));
    lemma_trim_start_of_both(before, core + after);
    lemma_trim_end_of_both(core, after);
}

/// A text is what trimming leaves of it, with white space around it.
pub proof fn lemma_trim_parts(text: Seq<char>) -> (parts: (Seq<char>, Seq<char>))
    ensures
        blank(parts.0),
        blank(parts.1),
        text == parts.0 + trim(text) + parts.1,
{
    let start = trim_start(text);
    lemma_trim_start(text);
    lemma_trim_end(start);
    let before = text.take(text.len() - start.len());
    let after = start.skip(trim(text).len() as int);
    assert(text =~= before + trim(text) + after);
    (before, after)
}

/// What stands before the first of some characters, and behind the last, is found, whatever else
/// the text holds; a text without it stays whole.
pub proof fn law_texts_are_cut_at_the_character(left: Seq<char>, c: char, right: Seq<char>)
    ensures
        !left.contains(c) ==> before_first(left + seq![c] + right, c) == left && before_first(left, c)
            == left && after_last(left, c) == left,
        !right.contains(c) ==> after_last(left + seq![c] + right, c) == right,
{
    let text = left + seq![c] + right;
    lemma_first_at(text, c);
    lemma_after_last_at(text, c);
    assert(text[left.len() as int] == c);
    if !left.contains(c) {
        let at = first_at(text, c);
        if at < left.len() {
            assert(left.contains(left[at]));
        }
        assert(text.take(at) =~= left);
        lemma_first_at(left, c);
        lemma_after_last_at(left, c);
        if first_at(left, c) < left.len() {
            assert(left.contains(left[first_at(left, c)]));
        }
        assert(left.take(first_at(left, c)) =~= left);
        if after_last_at(left, c) > 0 {
            assert(left.contains(left[after_last_at(left, c) - 1]));
        }
        assert(left.skip(0) =~= left);
    }
    if !right.contains(c) {
        let at = after_last_at(text, c);
        if at > left.len() + 1 {
            assert(right[at - 1 - left.len() - 1] == c);
            assert(right.contains(c));
        }
        assert(text.skip(at) =~= right);
    }
}

/// Texts are joined with the separator between each two, in their order.
pub proof fn law_joins_stand_between(
    left: Seq<Seq<char>>,
    right: Seq<Seq<char>>,
    separator: Seq<char>,
)
    requires
        left.len() > 0,
        right.len() > 0,
    ensures
        joined(left + right, separator) == joined(left, separator) + separator + joined(
            right,
            separator,
        ),
        left.len() == 1 ==> joined(left, separator) == left[0],
        joined(Seq::empty(), separator).len() == 0,
    decreases right.len(),
{
    let all = left + right;
    if right.len() == 1 {
        assert(all.drop_last() =~= left);
        assert(joined(all, separator) =~= joined(left, separator) + separator + right[0]);
    } else {
        law_joins_stand_between(left, right.drop_last(), separator);
        assert(all.drop_last() =~= left + right.drop_last());
        assert(joined(all, separator) =~= joined(left, separator) + separator + joined(
            right,
            separator,
        ));
    }
}

/// Replacing changes each of the one character to the other, and nothing else.
pub proof fn law_replacing_changes_one_character(text: Seq<char>, from: char, to: char, i: int)
    requires
        0 <= i < text.len(),
    ensures
        replaced(text, from, to).len() == text.len(),
        text[i] == from ==> replaced(text, from, to)[i] == to,
        text[i] != from ==> replaced(text, from, to)[i] == text[i],
{
}

/// A text that begins with a prefix loses exactly that; one is found in another wherever it stands
/// in it.
pub proof fn law_prefixes_and_parts_are_found(left: Seq<char>, part: Seq<char>, right: Seq<char>)
    ensures
        without_prefix(part + right, part) == Some(right),
        !part.is_prefix_of(left) ==> without_prefix(left, part) is None,
        has_part(left + part + right, part),
{
    let text = part + right;
    assert(text.subrange(0, part.len() as int) =~= part);
    assert(text.skip(part.len() as int) =~= right);
    let whole = left + part + right;
    assert(whole.subrange(left.len() as int, left.len() as int + part.len()) =~= part);
    assert(stands_at(whole, part, left.len() as int));
}

/// Where one text is found in another, that is made of it and of what stands around it.
pub proof fn law_found_parts_stand_in_the_text(text: Seq<char>, part: Seq<char>) -> (around: (
    Seq<char>,
    Seq<char>,
))
    requires
        has_part(text, part),
    ensures
        text == around.0 + part + around.1,
{
    let at = choose|at: int| stands_at(text, part, at);
    let left = text.take(at);
    let right = text.skip(at + part.len());
    assert(text.subrange(at, at + part.len()) =~= part);
    assert(text =~= left + part + right);
    (left, right)
}

/// The front of a text is as many of its characters as are asked for, or all of them; a repetition
/// is as many of one character as are asked for.
pub proof fn law_fronts_and_repetitions_have_their_length(text: Seq<char>, count: nat, c: char)
    ensures
        count <= text.len() ==> front(text, count) == text.take(count as int),
        text.len() <= count ==> front(text, count) == text,
        repeated(c, count).len() == count,
        forall|i: int| 0 <= i < count ==> #[trigger] repeated(c, count)[i] == c,
{
    if count == text.len() {
        assert(text.take(count as int) =~= text);
    }
}

/// Bytes are shown as the text that they encode, where they encode one.
pub proof fn law_bytes_are_shown_as_text(bytes: Seq<u8>)
    ensures
        vstd::utf8::valid_utf8(bytes) ==> shown_bytes(bytes) == vstd::utf8::decode_utf8(bytes),
        !vstd::utf8::valid_utf8(bytes) ==> shown_bytes(bytes) == utf8_lossy(bytes),
{
}

} // verus!
