//! Paths: bytes whose separator is `/`, and texts that show them.

use vstd::prelude::*;

use crate::text;

verus! {

/// The byte that separates the names on a path.
pub const SLASH: u8 = 47;

/// The byte that separates a name from its extension.
pub const DOT: u8 = 46;

// ---------------------------------------------------------------------------------------------
// Bytes
// ---------------------------------------------------------------------------------------------
/// The bytes of a text.
pub open spec fn bytes_of(name: Seq<char>) -> Seq<u8> {
    vstd::utf8::encode_utf8(name)
}

/// The contents of a list of paths.
pub open spec fn contents(list: Seq<Vec<u8>>) -> Seq<Seq<u8>> {
    Seq::new(list.len(), |i: int| list[i]@)
}

/// The content of an optional path.
pub open spec fn path_option(path: Option<Vec<u8>>) -> Option<Seq<u8>> {
    match path {
        Some(path) => Some(path@),
        None => None,
    }
}

/// Copies bytes.
pub fn copy_bytes(bytes: &[u8]) -> (copy: Vec<u8>)
    ensures
        copy@ == bytes@,
{
    cut_bytes(bytes, 0, bytes.len())
}

/// Copies the bytes from one position to another.
pub fn cut_bytes(bytes: &[u8], from: usize, to: usize) -> (copy: Vec<u8>)
    requires
        from <= to <= bytes@.len(),
    ensures
        copy@ == bytes@.subrange(from as int, to as int),
{
    let mut copy: Vec<u8> = Vec::new();
    let mut i: usize = from;
    while i < to
        invariant
            from <= i <= to <= bytes@.len(),
            copy@ =~= bytes@.subrange(from as int, i as int),
        decreases to - i,
    {
        copy.push(bytes[i]);
        i = i + 1;
    }
    copy
}

/// Adds bytes behind others.
fn append_bytes(all: &mut Vec<u8>, more: &[u8])
    ensures
        final(all)@ == old(all)@ + more@,
{
    let mut tail = copy_bytes(more);
    all.append(&mut tail);
}

/// Whether two runs of bytes are the same.
pub fn same_bytes(left: &[u8], right: &[u8]) -> (same: bool)
    ensures
        same == (left@ == right@),
{
    if left.len() != right.len() {
        return false;
    }
    let mut i: usize = 0;
    while i < left.len()
        invariant
            i <= left@.len() == right@.len(),
            forall|k: int| 0 <= k < i ==> left@[k] == right@[k],
        decreases left@.len() - i,
    {
        if left[i] != right[i] {
            assert(left@[i as int] != right@[i as int]);
            return false;
        }
        i = i + 1;
    }
    assert(left@ =~= right@);
    true
}

/// The position of the first `b`, or the length.
fn find_first_byte(bytes: &[u8], b: u8) -> (at: usize)
    ensures
        at == text::first_at(bytes@, b),
        at <= bytes@.len(),
{
    let mut at: usize = 0;
    proof {
        text::lemma_first_at(bytes@, b);
    }
    while at < bytes.len() && bytes[at] != b
        invariant
            at <= text::first_at(bytes@, b) <= bytes@.len(),
            text::first_at(bytes@, b) < bytes@.len() ==> bytes@[text::first_at(bytes@, b)] == b,
            forall|i: int| 0 <= i < text::first_at(bytes@, b) ==> #[trigger] bytes@[i] != b,
        decreases bytes@.len() - at,
    {
        at = at + 1;
    }
    at
}

/// The position behind the last `b`, or 0.
fn find_after_last_byte(bytes: &[u8], b: u8) -> (at: usize)
    ensures
        at == text::after_last_at(bytes@, b),
        at <= bytes@.len(),
{
    let mut at: usize = bytes.len();
    proof {
        text::lemma_after_last_at(bytes@, b);
    }
    while at > 0 && bytes[at - 1] != b
        invariant
            text::after_last_at(bytes@, b) <= at <= bytes@.len(),
            text::after_last_at(bytes@, b) > 0 ==> bytes@[text::after_last_at(bytes@, b) - 1] == b,
            forall|i: int|
                text::after_last_at(bytes@, b) <= i < bytes@.len() ==> #[trigger] bytes@[i] != b,
        decreases at,
    {
        at = at - 1;
    }
    at
}

// ---------------------------------------------------------------------------------------------
// Parts of a path
// ---------------------------------------------------------------------------------------------
/// The parts of a path: whether it starts at the root, and the names on the way.
#[derive(Debug)]
pub struct PathParts {
    pub rooted: bool,
    pub names: Vec<Vec<u8>>,
}

/// The content of [`PathParts`].
pub struct Parts {
    pub rooted: bool,
    pub names: Seq<Seq<u8>>,
}

impl View for PathParts {
    type V = Parts;

    open spec fn view(&self) -> Parts {
        Parts { rooted: self.rooted, names: contents(self.names@) }
    }
}

/// The pieces of a path between its slashes.
pub open spec fn pieces(path: Seq<u8>) -> Seq<Seq<u8>>
    decreases path.len(),
{
    let at = text::first_at(path, SLASH);
    if 0 <= at < path.len() {
        seq![path.take(at)] + pieces(path.skip(at + 1))
    } else {
        seq![path]
    }
}

/// The name that stands for the directory itself.
pub open spec fn here() -> Seq<u8> {
    seq![DOT]
}

/// The name that stands for the parent directory.
pub open spec fn above() -> Seq<u8> {
    seq![DOT, DOT]
}

/// The pieces that count as names: not the empty ones, and `.` only where it leads the path.
pub open spec fn names_among(pieces: Seq<Seq<u8>>, leading: bool) -> Seq<Seq<u8>>
    decreases pieces.len(),
{
    if pieces.len() == 0 {
        pieces
    } else {
        let rest = names_among(pieces.drop_first(), false);
        if pieces[0].len() == 0 || pieces[0] == here() && !leading {
            rest
        } else {
            seq![pieces[0]] + rest
        }
    }
}

/// The parts of a path.
pub open spec fn parts_of(path: Seq<u8>) -> Parts {
    Parts {
        rooted: path.len() > 0 && path[0] == SLASH,
        names: names_among(pieces(path), true),
    }
}

/// Whether a name stands for the directory itself.
fn is_here(name: &Vec<u8>) -> (is: bool)
    ensures
        is == (name@ == here()),
{
    let is = name.len() == 1 && name[0] == DOT;
    assert(is ==> name@ =~= here());
    is
}

/// Whether a name stands for the parent directory.
fn is_above(name: &Vec<u8>) -> (is: bool)
    ensures
        is == (name@ == above()),
{
    let is = name.len() == 2 && name[0] == DOT && name[1] == DOT;
    assert(is ==> name@ =~= above());
    is
}

/// Takes a path apart.
pub fn split_path(path: &[u8]) -> (parts: PathParts)
    ensures
        parts@ == parts_of(path@),
{
    let rooted = path.len() > 0 && path[0] == SLASH;
    let mut names: Vec<Vec<u8>> = Vec::new();
    let mut rest = copy_bytes(path);
    let mut leading = true;
    let mut open = true;
    let ghost goal = parts_of(path@).names;
    assert(contents(names@) + goal =~= goal);
    while open
        invariant
            open ==> goal == contents(names@) + names_among(pieces(rest@), leading),
            !open ==> goal == contents(names@),
        decreases
                (if open {
                    1int
                } else {
                    0int
                }),
                rest.len(),
    {
        let ghost before = contents(names@);
        let ghost todo = pieces(rest@);
        let at = find_first_byte(rest.as_slice(), SLASH);
        let piece = cut_bytes(rest.as_slice(), 0, at);
        let counts = piece.len() > 0 && (leading || !is_here(&piece));
        assert(rest@.subrange(0, at as int) =~= rest@.take(at as int));
        assert(at == rest@.len() ==> rest@.take(at as int) =~= rest@);
        assert(todo[0] == piece@);
        if counts {
            names.push(piece);
            assert(contents(names@) =~= before.push(piece@));
        }
        let ghost behind = names_among(todo.drop_first(), false);
        assert(goal =~= contents(names@) + behind);
        if at < rest.len() {
            let tail = cut_bytes(rest.as_slice(), at + 1, rest.len());
            assert(rest@.subrange(at + 1, rest@.len() as int) =~= rest@.skip(at + 1));
            assert(todo.drop_first() =~= pieces(rest@.skip(at + 1)));
            rest = tail;
        } else {
            assert(todo.drop_first() =~= Seq::<Seq<u8>>::empty());
            assert(goal =~= contents(names@));
            open = false;
        }
        leading = false;
    }
    PathParts { rooted, names }
}

/// The last name on a path, where it names a file or a directory.
pub open spec fn final_name(parts: Parts) -> Option<Seq<u8>> {
    if parts.names.len() == 0 || parts.names.last() == here() || parts.names.last() == above() {
        None
    } else {
        Some(parts.names.last())
    }
}

/// The path without its last name; the root and the empty path have no parent.
pub open spec fn parent(parts: Parts) -> Option<Parts> {
    if parts.names.len() == 0 {
        None
    } else {
        Some(Parts { rooted: parts.rooted, names: parts.names.drop_last() })
    }
}

impl PathParts {
    /// The last name, where it names a file or a directory.
    pub fn file_name(&self) -> (name: Option<&Vec<u8>>)
        ensures
            match name {
                Some(name) => final_name(self@) == Some(name@),
                None => final_name(self@) is None,
            },
    {
        if self.names.len() == 0 {
            return None;
        }
        let name = &self.names[self.names.len() - 1];
        assert(self@.names.last() == name@);
        if is_here(name) || is_above(name) {
            None
        } else {
            Some(name)
        }
    }

    /// Goes up to the parent.
    pub fn into_parent(self) -> (up: Option<PathParts>)
        ensures
            match up {
                Some(up) => parent(self@) == Some(up@),
                None => parent(self@) is None,
            },
    {
        let mut names = self.names;
        if names.len() == 0 {
            return None;
        }
        let ghost all = names@;
        names.pop();
        assert(contents(names@) =~= contents(all).drop_last());
        Some(PathParts { rooted: self.rooted, names })
    }

    /// Whether two paths have the same parts.
    pub fn same_as(&self, other: &PathParts) -> (same: bool)
        ensures
            same == (self@ == other@),
    {
        if self.rooted != other.rooted || self.names.len() != other.names.len() {
            assert(self@.names.len() != other@.names.len() || self@.rooted != other@.rooted);
            return false;
        }
        let mut i: usize = 0;
        while i < self.names.len()
            invariant
                i <= self.names.len() == other.names.len(),
                forall|k: int| 0 <= k < i ==> self@.names[k] == other@.names[k],
            decreases self.names.len() - i,
        {
            if !same_bytes(self.names[i].as_slice(), other.names[i].as_slice()) {
                assert(self@.names[i as int] != other@.names[i as int]);
                return false;
            }
            i = i + 1;
        }
        assert(self@.names =~= other@.names);
        true
    }
}

// ---------------------------------------------------------------------------------------------
// Extensions
// ---------------------------------------------------------------------------------------------
/// A byte, or that of the lower-case letter for an upper-case ASCII one.
pub open spec fn folded(b: u8) -> u8 {
    if 65 <= b <= 90 {
        (b + 32) as u8
    } else {
        b
    }
}

/// Whether two runs of bytes are the same but for the case of ASCII letters.
pub open spec fn same_ignoring_case(left: Seq<u8>, right: Seq<u8>) -> bool {
    left.len() == right.len() && forall|i: int|
        0 <= i < left.len() ==> folded(#[trigger] left[i]) == folded(right[i])
}

fn fold(b: u8) -> (lower: u8)
    ensures
        lower == folded(b),
{
    if 65 <= b && b <= 90 {
        b + 32
    } else {
        b
    }
}

/// Compares bytes without regard to the case of ASCII letters.
pub fn eq_ignore_case(left: &[u8], right: &[u8]) -> (same: bool)
    ensures
        same == same_ignoring_case(left@, right@),
{
    if left.len() != right.len() {
        return false;
    }
    let mut i: usize = 0;
    while i < left.len()
        invariant
            i <= left@.len() == right@.len(),
            forall|k: int| 0 <= k < i ==> folded(#[trigger] left@[k]) == folded(right@[k]),
        decreases left@.len() - i,
    {
        if fold(left[i]) != fold(right[i]) {
            assert(folded(left@[i as int]) != folded(right@[i as int]));
            return false;
        }
        i = i + 1;
    }
    true
}

/// The extension of the file that a path names: what stands behind the last dot of its name,
/// unless that dot leads the name.
pub open spec fn path_extension(path: Seq<u8>) -> Option<Seq<u8>> {
    match final_name(parts_of(path)) {
        Some(name) => if text::after_last_at(name, DOT) <= 1 {
            None
        } else {
            Some(name.skip(text::after_last_at(name, DOT)))
        },
        None => None,
    }
}

/// Whether the file that a path names has the extension `extension`, in whatever case.
pub open spec fn has_extension(path: Seq<u8>, extension: Seq<char>) -> bool {
    match path_extension(path) {
        Some(found) => same_ignoring_case(found, bytes_of(extension)),
        None => false,
    }
}

/// Tests the extension of the file that a path names.
pub fn extension_is(path: &[u8], extension: &str) -> (is: bool)
    ensures
        is == has_extension(path@, extension@),
{
    let parts = split_path(path);
    match parts.file_name() {
        Some(name) => {
            let behind_dot = find_after_last_byte(name.as_slice(), DOT);
            if behind_dot <= 1 {
                return false;
            }
            let found = cut_bytes(name.as_slice(), behind_dot, name.len());
            assert(found@ =~= name@.skip(behind_dot as int));
            eq_ignore_case(found.as_slice(), extension.as_bytes())
        },
        None => false,
    }
}

// ---------------------------------------------------------------------------------------------
// Joining
// ---------------------------------------------------------------------------------------------
/// A path with a name behind it. A name that starts at the root stands for itself.
pub open spec fn extended(base: Seq<u8>, name: Seq<u8>) -> Seq<u8> {
    if name.len() > 0 && name[0] == SLASH {
        name
    } else if base.len() == 0 || base.last() == SLASH {
        base + name
    } else {
        base + seq![SLASH] + name
    }
}

/// Joins a name to a path.
pub fn extend_path(base: &[u8], name: &str) -> (path: Vec<u8>)
    ensures
        path@ == extended(base@, bytes_of(name@)),
{
    let name_bytes = name.as_bytes();
    if name_bytes.len() > 0 && name_bytes[0] == SLASH {
        return copy_bytes(name_bytes);
    }
    let mut path = copy_bytes(base);
    if base.len() > 0 && base[base.len() - 1] != SLASH {
        path.push(SLASH);
        assert(path@ =~= base@ + seq![SLASH]);
    }
    append_bytes(&mut path, name_bytes);
    path
}

/// A path with names behind it, one after another.
pub open spec fn extended_by(base: Seq<u8>, names: Seq<Seq<char>>) -> Seq<u8>
    decreases names.len(),
{
    if names.len() == 0 {
        base
    } else {
        extended(extended_by(base, names.drop_last()), bytes_of(names.last()))
    }
}

/// Joins names to a path, one after another.
pub fn extend_path_by(base: &[u8], names: &[&str]) -> (path: Vec<u8>)
    ensures
        path@ == extended_by(base@, text::words(names@)),
{
    let mut path = copy_bytes(base);
    let mut i: usize = 0;
    while i < names.len()
        invariant
            i <= names@.len(),
            path@ == extended_by(base@, text::words(names@).take(i as int)),
        decreases names@.len() - i,
    {
        let ghost next = text::words(names@).take(i + 1);
        assert(next.drop_last() =~= text::words(names@).take(i as int));
        assert(next.last() == names@[i as int]@);
        path = extend_path(path.as_slice(), names[i]);
        i = i + 1;
    }
    assert(text::words(names@).take(i as int) =~= text::words(names@));
    path
}

proof fn lemma_pieces_of_both(left: Seq<u8>, right: Seq<u8>)
    ensures
        pieces(left + seq![SLASH] + right) == pieces(left) + pieces(right),
    decreases left.len(),
{
    let both = left + seq![SLASH] + right;
    text::lemma_first_at(left, SLASH);
    text::lemma_first_at(both, SLASH);
    let at = text::first_at(left, SLASH);
    assert(both[left.len() as int] == SLASH);
    if at < left.len() {
        assert(both[at] == SLASH);
        assert(text::first_at(both, SLASH) == at) by {
            let found = text::first_at(both, SLASH);
            if found < at {
                assert(both[found] == left[found]);
            }
        }
        lemma_pieces_of_both(left.skip(at + 1), right);
        assert(both.skip(at + 1) =~= left.skip(at + 1) + seq![SLASH] + right);
        assert(both.take(at) =~= left.take(at));
        assert(pieces(both) =~= pieces(left) + pieces(right));
    } else {
        assert(text::first_at(both, SLASH) == left.len()) by {
            let found = text::first_at(both, SLASH);
            if found < left.len() {
                assert(both[found] == left[found]);
            }
        }
        assert(both.take(left.len() as int) =~= left);
        assert(both.skip(left.len() + 1int) =~= right);
    }
}

proof fn lemma_names_among_both(left: Seq<Seq<u8>>, right: Seq<Seq<u8>>, leading: bool)
    requires
        left.len() > 0,
    ensures
        names_among(left + right, leading) == names_among(left, leading) + names_among(
            right,
            false,
        ),
    decreases left.len(),
{
    let both = left + right;
    assert(both.drop_first() =~= left.drop_first() + right);
    if left.len() == 1 {
        assert(both.drop_first() =~= right);
        assert(names_among(left.drop_first(), false) =~= Seq::<Seq<u8>>::empty());
    } else {
        lemma_names_among_both(left.drop_first(), right, false);
    }
    assert(names_among(both, leading) =~= names_among(left, leading) + names_among(right, false));
}

/// Whether bytes can name a file: there are some, with no slash, and they are not `.`.
pub open spec fn plain_name(name: Seq<u8>) -> bool {
    name.len() > 0 && !name.contains(SLASH) && name != here()
}

/// Joining a plain name to a path adds it to the names on the path.
pub proof fn law_joining_adds_a_name(base: Seq<u8>, name: Seq<u8>)
    requires
        plain_name(name),
    ensures
        parts_of(extended(base, name)).names == parts_of(base).names.push(name),
        parts_of(extended(base, name)).rooted == parts_of(base).rooted,
{
    text::lemma_first_at(name, SLASH);
    assert(text::first_at(name, SLASH) == name.len()) by {
        let at = text::first_at(name, SLASH);
        if at < name.len() {
            assert(name.contains(name[at]));
        }
    }
    assert(name.contains(name[0]));
    assert(pieces(name) =~= seq![name]);
    reveal_with_fuel(names_among, 2);
    assert(seq![name].drop_first() =~= Seq::<Seq<u8>>::empty());
    assert(names_among(seq![name], true) =~= seq![name]);
    assert(names_among(seq![name], false) =~= seq![name]);
    let path = extended(base, name);
    if base.len() == 0 {
        assert(path =~= name);
        text::lemma_first_at(base, SLASH);
        assert(pieces(base) =~= seq![base]);
        assert(seq![base].drop_first() =~= Seq::<Seq<u8>>::empty());
        assert(names_among(pieces(base), true) =~= Seq::<Seq<u8>>::empty());
        assert(parts_of(path).names =~= parts_of(base).names.push(name));
    } else if base.last() == SLASH {
        let front = base.drop_last();
        let nothing = Seq::<u8>::empty();
        assert(base =~= front + seq![SLASH] + nothing);
        assert(path =~= front + seq![SLASH] + name);
        lemma_pieces_of_both(front, nothing);
        lemma_pieces_of_both(front, name);
        text::lemma_first_at(nothing, SLASH);
        assert(pieces(nothing) =~= seq![nothing]);
        lemma_names_among_both(pieces(front), seq![nothing], true);
        lemma_names_among_both(pieces(front), seq![name], true);
        assert(seq![nothing].drop_first() =~= Seq::<Seq<u8>>::empty());
        assert(names_among(seq![nothing], false) =~= Seq::<Seq<u8>>::empty());
        assert(parts_of(path).names =~= parts_of(base).names.push(name));
    } else {
        assert(path =~= base + seq![SLASH] + name);
        lemma_pieces_of_both(base, name);
        lemma_names_among_both(pieces(base), seq![name], true);
        assert(parts_of(path).names =~= parts_of(base).names.push(name));
    }
}

/// Going up from a path with a name behind it leads back to the path, and that name is its last.
pub proof fn law_going_up_undoes_joining(base: Seq<u8>, name: Seq<u8>)
    requires
        plain_name(name),
    ensures
        parent(parts_of(extended(base, name))) == Some(parts_of(base)),
        name != above() ==> final_name(parts_of(extended(base, name))) == Some(name),
{
    law_joining_adds_a_name(base, name);
    assert(parts_of(base).names.push(name).drop_last() =~= parts_of(base).names);
}

/// A name alone is the only one on its path.
pub proof fn law_names_are_paths(name: Seq<u8>)
    requires
        plain_name(name),
    ensures
        parts_of(name).names == seq![name],
        !parts_of(name).rooted,
{
    let nothing = Seq::<u8>::empty();
    law_joining_adds_a_name(nothing, name);
    law_nothing_is_on_an_empty_path();
    assert(name.contains(name[0]));
    assert(nothing + name =~= name);
    assert(nothing.push(SLASH).len() == 1);
    assert(Seq::<Seq<u8>>::empty().push(name) =~= seq![name]);
}

/// The empty path has no names, and does not start at the root.
pub proof fn law_nothing_is_on_an_empty_path()
    ensures
        parts_of(Seq::empty()).names == Seq::<Seq<u8>>::empty(),
        !parts_of(Seq::empty()).rooted,
{
    let nothing = Seq::<u8>::empty();
    text::lemma_first_at(nothing, SLASH);
    assert(pieces(nothing) =~= seq![nothing]);
    reveal_with_fuel(names_among, 2);
    assert(seq![nothing].drop_first() =~= Seq::<Seq<u8>>::empty());
    assert(names_among(pieces(nothing), true) =~= Seq::<Seq<u8>>::empty());
}

/// More slashes than one count as one, and so does a name that stands for the directory itself
/// between two.
pub proof fn law_empty_names_do_not_count(left: Seq<u8>, right: Seq<u8>)
    ensures
        parts_of(left + seq![SLASH] + (seq![SLASH] + right)) == parts_of(
            left + seq![SLASH] + right,
        ),
        parts_of(left + seq![SLASH] + (seq![DOT, SLASH] + right)) == parts_of(
            left + seq![SLASH] + right,
        ),
{
    let nothing = Seq::<u8>::empty();
    lemma_pieces_of_both(left, right);
    lemma_pieces_of_both(left, seq![SLASH] + right);
    lemma_pieces_of_both(left, seq![DOT, SLASH] + right);
    lemma_pieces_of_both(nothing, right);
    lemma_pieces_of_both(here(), right);
    assert(nothing + seq![SLASH] + right =~= seq![SLASH] + right);
    assert(here() + seq![SLASH] + right =~= seq![DOT, SLASH] + right);
    text::lemma_first_at(nothing, SLASH);
    text::lemma_first_at(here(), SLASH);
    assert(pieces(nothing) =~= seq![nothing]);
    assert(pieces(here()) =~= seq![here()]);
    lemma_pieces_are_some(left);
    lemma_names_among_both(pieces(left), pieces(right), true);
    lemma_names_among_both(pieces(left), pieces(seq![SLASH] + right), true);
    lemma_names_among_both(pieces(left), pieces(seq![DOT, SLASH] + right), true);
    lemma_names_among_both(seq![nothing], pieces(right), false);
    lemma_names_among_both(seq![here()], pieces(right), false);
    reveal_with_fuel(names_among, 2);
    assert(seq![nothing].drop_first() =~= Seq::<Seq<u8>>::empty());
    assert(seq![here()].drop_first() =~= Seq::<Seq<u8>>::empty());
    let rest = names_among(pieces(right), false);
    assert(names_among(seq![nothing], false) + rest =~= rest);
    assert(names_among(seq![here()], false) + rest =~= rest);
}

proof fn lemma_pieces_are_some(path: Seq<u8>)
    ensures
        pieces(path).len() > 0,
{
}

/// A file has an extension, in whatever case, exactly where that is what stands behind the last dot
/// of its name; a dot at the front of a name starts no extension.
pub proof fn law_extensions_stand_behind_the_last_dot(
    base: Seq<u8>,
    stem: Seq<u8>,
    extension: Seq<u8>,
    asked: Seq<char>,
)
    requires
        stem.len() > 0,
        !stem.contains(SLASH),
        !extension.contains(SLASH),
        !extension.contains(DOT),
        !(stem == here() && extension.len() == 0),
    ensures
        has_extension(extended(base, stem + seq![DOT] + extension), asked) == same_ignoring_case(
            extension,
            bytes_of(asked),
        ),
        !has_extension(extended(base, seq![DOT] + extension), asked) || extension.len() == 0,
{
    let name = stem + seq![DOT] + extension;
    assert(!name.contains(SLASH)) by {
        if name.contains(SLASH) {
            let i = choose|i: int| 0 <= i < name.len() && name[i] == SLASH;
            if i < stem.len() {
                assert(stem.contains(stem[i]));
            } else if i > stem.len() {
                assert(extension.contains(extension[i - stem.len() - 1]));
            }
        }
    }
    assert(name.len() >= 2);
    assert(here().len() == 1);
    if name == above() {
        assert(name.len() == 2 && name[0] == DOT);
        assert(stem =~= here());
        assert(extension.len() == 0);
    }
    law_going_up_undoes_joining(base, name);
    text::lemma_after_last_at(name, DOT);
    let at = text::after_last_at(name, DOT);
    assert(name[stem.len() as int] == DOT);
    assert(at == stem.len() + 1) by {
        if at > stem.len() + 1 {
            assert(extension[at - 1 - stem.len() - 1] == DOT);
            assert(extension.contains(DOT));
        }
    }
    assert(name.skip(at) =~= extension);
    if extension.len() > 0 {
        let hidden = seq![DOT] + extension;
        assert(!hidden.contains(SLASH)) by {
            if hidden.contains(SLASH) {
                let i = choose|i: int| 0 <= i < hidden.len() && hidden[i] == SLASH;
                assert(extension.contains(extension[i - 1]));
            }
        }
        assert(hidden[1] == extension[0]);
        assert(extension.contains(extension[0]));
        law_going_up_undoes_joining(base, hidden);
        text::lemma_after_last_at(hidden, DOT);
        let behind = text::after_last_at(hidden, DOT);
        if behind > 1 {
            assert(extension[behind - 2] == DOT);
            assert(extension.contains(DOT));
        }
    }
}

/// Two runs of bytes are the same but for their case exactly where each two bytes are the same, or
/// are the capital and the small form of one ASCII letter.
pub proof fn law_case_is_that_of_ascii_letters(left: Seq<u8>, right: Seq<u8>)
    ensures
        same_ignoring_case(left, right) == (left.len() == right.len() && forall|i: int|
            0 <= i < left.len() ==> #[trigger] left[i] == right[i] || (left[i] == right[i] + 32 && 65
                <= right[i] <= 90) || (right[i] == left[i] + 32 && 65 <= left[i] <= 90)),
{
    let alike = left.len() == right.len() && forall|i: int|
        0 <= i < left.len() ==> #[trigger] left[i] == right[i] || (left[i] == right[i] + 32 && 65
            <= right[i] <= 90) || (right[i] == left[i] + 32 && 65 <= left[i] <= 90);
    if same_ignoring_case(left, right) {
        assert forall|i: int| 0 <= i < left.len() implies #[trigger] left[i] == right[i] || (left[i]
            == right[i] + 32 && 65 <= right[i] <= 90) || (right[i] == left[i] + 32 && 65 <= left[i]
            <= 90) by {
            assert(folded(left[i]) == folded(right[i]));
        }
    }
    if alike {
        assert forall|i: int| 0 <= i < left.len() implies folded(#[trigger] left[i]) == folded(
            right[i],
        ) by {}
    }
}

/// Names are joined to a path one after another, in their order.
pub proof fn law_names_are_joined_in_order(
    base: Seq<u8>,
    names: Seq<Seq<char>>,
    name: Seq<char>,
)
    ensures
        extended_by(base, Seq::empty()) == base,
        extended_by(base, names.push(name)) == extended(
            extended_by(base, names),
            vstd::utf8::encode_utf8(name),
        ),
{
    assert(names.push(name).drop_last() =~= names);
}

// ---------------------------------------------------------------------------------------------
// How paths are shown
// ---------------------------------------------------------------------------------------------
/// The texts that show some paths.
pub open spec fn shown(list: Seq<Seq<u8>>) -> Seq<Seq<char>> {
    Seq::new(list.len(), |i: int| text::shown_bytes(list[i]))
}

/// Shows some paths, as text.
pub fn show_paths(list: &Vec<Vec<u8>>) -> (texts: Vec<String>)
    ensures
        text::texts(texts@) == shown(contents(list@)),
{
    let mut texts: Vec<String> = Vec::new();
    let mut i: usize = 0;
    while i < list.len()
        invariant
            i <= list.len(),
            text::texts(texts@) =~= shown(contents(list@)).take(i as int),
        decreases list.len() - i,
    {
        let ghost before = text::texts(texts@);
        texts.push(text::utf8_text_lossy(&list[i]));
        assert(text::texts(texts@) =~= before.push(text::shown_bytes(list@[i as int]@)));
        i = i + 1;
    }
    texts
}

/// The text of a path with a name behind it. A name that starts at the root stands for itself.
pub open spec fn joined_path(base: Seq<char>, name: Seq<char>) -> Seq<char> {
    if name.len() > 0 && name[0] == '/' {
        name
    } else if base.len() == 0 || base.last() == '/' {
        base + name
    } else {
        base + "/"@ + name
    }
}

/// Joins a name to the text of a path.
pub fn join_path(base: &str, name: &str) -> (path: String)
    ensures
        path@ == joined_path(base@, name@),
{
    let name_chars = text::chars_of(name);
    if name_chars.len() > 0 && name_chars[0] == '/' {
        return name.to_owned();
    }
    let base_chars = text::chars_of(base);
    let mut path = base.to_owned();
    if base_chars.len() > 0 && base_chars[base_chars.len() - 1] != '/' {
        path.append("/");
    }
    path.append(name);
    path
}

/// The text of a path is joined to a name with one slash between them; a name that starts at the
/// root stands for itself.
pub proof fn law_shown_paths_are_joined_by_a_slash(base: Seq<char>, name: Seq<char>)
    ensures
        name.len() > 0 && name[0] == '/' ==> joined_path(base, name) == name,
        (name.len() == 0 || name[0] != '/') && base.len() > 0 && base.last() != '/' ==> joined_path(
            base,
            name,
        ) == base + seq!['/'] + name,
        (name.len() == 0 || name[0] != '/') && (base.len() == 0 || base.last() == '/')
            ==> joined_path(base, name) == base + name,
{
    reveal_strlit("/");
    assert("/"@ =~= seq!['/']);
}

/// A name is joined to a path with one slash between them; one that starts at the root stands for
/// itself.
pub proof fn law_paths_are_joined_by_a_slash(base: Seq<u8>, name: Seq<u8>)
    ensures
        name.len() > 0 && name[0] == 47 ==> extended(base, name) == name,
        (name.len() == 0 || name[0] != 47) && base.len() > 0 && base.last() != 47 ==> extended(
            base,
            name,
        ) == base + seq![47u8] + name,
        (name.len() == 0 || name[0] != 47) && (base.len() == 0 || base.last() == 47) ==> extended(
            base,
            name,
        ) == base + name,
{
}

/// A path starts at the root exactly where it starts with a slash.
pub proof fn law_roots_are_slashes(path: Seq<u8>)
    ensures
        parts_of(path).rooted == (path.len() > 0 && path[0] == 47),
{
}

/// A file whose name has no dot has no extension, nor has a path that ends with the name of the
/// directory itself or of the one above.
pub proof fn law_names_without_a_dot_have_no_extension(
    base: Seq<u8>,
    name: Seq<u8>,
    asked: Seq<char>,
)
    requires
        plain_name(name),
        !name.contains(DOT) || name == seq![DOT, DOT],
    ensures
        !has_extension(extended(base, name), asked),
        name == seq![DOT, DOT] ==> final_name(parts_of(extended(base, name))) is None,
{
    law_joining_adds_a_name(base, name);
    law_going_up_undoes_joining(base, name);
    assert(above() =~= seq![DOT, DOT]);
    text::lemma_after_last_at(name, DOT);
    let at = text::after_last_at(name, DOT);
    if !name.contains(DOT) && at > 0 {
        assert(name[at - 1] == DOT);
    }
}

/// Each path is shown as its bytes are, in its place.
pub proof fn law_each_path_is_shown(list: Seq<Seq<u8>>, i: int)
    requires
        0 <= i < list.len(),
    ensures
        shown(list).len() == list.len(),
        shown(list)[i] == text::shown_bytes(list[i]),
{
}

/// A slash at the end of a path does not count; and what a path names depends on its parts alone.
pub proof fn law_paths_go_by_their_parts(path: Seq<u8>, other: Seq<u8>, asked: Seq<char>)
    ensures
        parts_of(path + seq![SLASH]).names == parts_of(path).names,
        parts_of(path) == parts_of(other) ==> has_extension(path, asked) == has_extension(
            other,
            asked,
        ),
{
    let nothing = Seq::<u8>::empty();
    assert(path + seq![SLASH] + nothing =~= path + seq![SLASH]);
    lemma_pieces_of_both(path, nothing);
    text::lemma_first_at(nothing, SLASH);
    assert(pieces(nothing) =~= seq![nothing]);
    lemma_pieces_are_some(path);
    lemma_names_among_both(pieces(path), seq![nothing], true);
    reveal_with_fuel(names_among, 2);
    assert(seq![nothing].drop_first() =~= Seq::<Seq<u8>>::empty());
    assert(names_among(seq![nothing], false) =~= Seq::<Seq<u8>>::empty());
    assert(parts_of(path + seq![SLASH]).names =~= parts_of(path).names);
}

/// The name that stands for the directory itself counts where it leads a path, but names no file.
pub proof fn law_paths_may_start_at_the_directory_itself()
    ensures
        parts_of(seq![46u8]).names == seq![seq![46u8]],
        final_name(parts_of(seq![46u8])) is None,
{
    let path = seq![46u8];
    text::lemma_first_at(path, SLASH);
    assert(pieces(path) =~= seq![path]);
    reveal_with_fuel(names_among, 2);
    assert(seq![path].drop_first() =~= Seq::<Seq<u8>>::empty());
    assert(names_among(seq![path], true) =~= seq![path]);
    assert(path =~= here());
}

} // verus!
