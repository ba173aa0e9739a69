//! JSON documents as plain data.

use vstd::prelude::*;

use crate::text;

verus! {

/// A JSON document. An object lists its members in the order in which the document's reader hands
/// them out.
#[derive(Debug)]
pub enum Json {
    Null,
    Bool(bool),
    Number,
    Text(String),
    Array(Vec<Json>),
    Object(Vec<(String, Json)>),
}

/// The mathematical content of a [`Json`].
pub enum Tree {
    Null,
    Bool(bool),
    Number,
    Text(Seq<char>),
    Array(Seq<Tree>),
    Object(Seq<(Seq<char>, Tree)>),
}

impl View for Json {
    type V = Tree;

    open spec fn view(&self) -> Tree
        decreases self,
    {
        match self {
            Json::Null => Tree::Null,
            Json::Bool(flag) => Tree::Bool(*flag),
            Json::Number => Tree::Number,
            Json::Text(text) => Tree::Text(text@),
            Json::Array(items) => Tree::Array(
                Seq::new(
                    items@.len(),
                    |i: int|
                        if 0 <= i < items@.len() {
                            items@[i].view()
                        } else {
                            Tree::Null
                        },
                ),
            ),
            Json::Object(members) => Tree::Object(
                Seq::new(
                    members@.len(),
                    |i: int|
                        if 0 <= i < members@.len() {
                            (members@[i].0@, members@[i].1.view())
                        } else {
                            (Seq::empty(), Tree::Null)
                        },
                ),
            ),
        }
    }
}

/// The contents of a list of documents.
pub open spec fn trees(items: Seq<Json>) -> Seq<Tree> {
    Seq::new(items.len(), |i: int| items[i]@)
}

/// The contents of the members of an object.
pub open spec fn pairs(members: Seq<(String, Json)>) -> Seq<(Seq<char>, Tree)> {
    Seq::new(members.len(), |i: int| (members[i].0@, members[i].1@))
}

/// The first member under `key`.
pub open spec fn member(members: Seq<(Seq<char>, Tree)>, key: Seq<char>) -> Option<Tree>
    decreases members.len(),
{
    if members.len() == 0 {
        None
    } else if members[0].0 == key {
        Some(members[0].1)
    } else {
        member(members.drop_first(), key)
    }
}

/// The member of `tree` under `key`, where `tree` is an object that has one.
pub open spec fn field(tree: Tree, key: Seq<char>) -> Option<Tree> {
    match tree {
        Tree::Object(members) => member(members, key),
        _ => None,
    }
}

/// The member under a key is the first with that key, whatever stands behind it; where no member
/// has the key, there is none.
pub proof fn law_first_member_counts(members: Seq<(Seq<char>, Tree)>, key: Seq<char>, at: int)
    requires
        0 <= at <= members.len(),
        at < members.len() ==> members[at].0 == key,
        forall|i: int| 0 <= i < at ==> (#[trigger] members[i]).0 != key,
    ensures
        member(members, key) == if at < members.len() {
            Some(members[at].1)
        } else {
            None
        },
        field(Tree::Object(members), key) == member(members, key),
    decreases members.len(),
{
    if at > 0 {
        let rest = members.drop_first();
        assert(members[0].0 != key);
        assert forall|i: int| 0 <= i < at - 1 implies (#[trigger] rest[i]).0 != key by {
            assert(rest[i] == members[i + 1]);
        }
        law_first_member_counts(rest, key, at - 1);
    }
}

/// The content of an array is that of its items, and the content of an object that of its members.
pub proof fn lemma_view(json: Json)
    ensures
        match json {
            Json::Array(items) => json@ == Tree::Array(trees(items@)),
            Json::Object(members) => json@ == Tree::Object(pairs(members@)),
            _ => true,
        },
{
    match json {
        Json::Array(items) => {
            assert(json@->Array_0 =~= trees(items@));
        },
        Json::Object(members) => {
            reveal_with_fuel(<Json as View>::view, 2);
            assert(json@->Object_0 =~= pairs(members@));
        },
        _ => {},
    }
}

/// The first member under `key`.
pub fn find_member<'a>(members: &'a Vec<(String, Json)>, key: &str) -> (found: Option<&'a Json>)
    ensures
        match found {
            Some(json) => member(pairs(members@), key@) == Some(json@),
            None => member(pairs(members@), key@) is None,
        },
{
    let ghost all = pairs(members@);
    let mut i: usize = 0;
    assert(all.skip(0) =~= all);
    while i < members.len()
        invariant
            i <= members.len(),
            all == pairs(members@),
            member(all, key@) == member(all.skip(i as int), key@),
        decreases members.len() - i,
    {
        assert(all.skip(i as int)[0] == all[i as int]);
        assert(all.skip(i as int).drop_first() =~= all.skip(i + 1));
        if text::same_text(members[i].0.as_str(), key) {
            return Some(&members[i].1);
        }
        i = i + 1;
    }
    None
}

impl Json {
    /// The member under `key`, where this is an object that has one.
    pub fn get(&self, key: &str) -> (found: Option<&Json>)
        ensures
            match found {
                Some(json) => field(self@, key@) == Some(json@),
                None => field(self@, key@) is None,
            },
    {
        proof {
            lemma_view(*self);
        }
        match self {
            Json::Object(members) => find_member(members, key),
            _ => None,
        }
    }

    /// The items, where this is an array.
    pub fn as_array(&self) -> (items: Option<&Vec<Json>>)
        ensures
            match items {
                Some(items) => self@ == Tree::Array(trees(items@)),
                None => !(self@ is Array),
            },
    {
        proof {
            lemma_view(*self);
        }
        match self {
            Json::Array(items) => Some(items),
            _ => None,
        }
    }

    /// The members, where this is an object.
    pub fn as_object(&self) -> (members: Option<&Vec<(String, Json)>>)
        ensures
            match members {
                Some(members) => self@ == Tree::Object(pairs(members@)),
                None => !(self@ is Object),
            },
    {
        proof {
            lemma_view(*self);
        }
        match self {
            Json::Object(members) => Some(members),
            _ => None,
        }
    }

    /// The text, where this is one.
    pub fn as_str(&self) -> (text: Option<&str>)
        ensures
            match text {
                Some(text) => self@ == Tree::Text(text@),
                None => !(self@ is Text),
            },
    {
        match self {
            Json::Text(text) => Some(text.as_str()),
            _ => None,
        }
    }
}

/// Whether `left` stands before `right` in the order of their code points.
pub open spec fn stands_before(left: Seq<char>, right: Seq<char>) -> bool
    decreases left.len(),
{
    if right.len() == 0 {
        false
    } else if left.len() == 0 || left[0] < right[0] {
        true
    } else {
        left[0] == right[0] && stands_before(left.drop_first(), right.drop_first())
    }
}

/// Whether the members of an object stand in ascending order of their keys, each key once.
pub open spec fn keys_ascend(members: Seq<(Seq<char>, Tree)>) -> bool {
    forall|i: int, j: int|
        0 <= i < j < members.len() ==> stands_before(
            (#[trigger] members[i]).0,
            (#[trigger] members[j]).0,
        )
}

/// Whether the keys ascend in each object of a document.
pub open spec fn in_key_order(tree: Tree) -> bool
    decreases tree,
{
    match tree {
        Tree::Array(items) => forall|i: int| 0 <= i < items.len() ==> in_key_order(#[trigger] items[i]),
        Tree::Object(members) => {
            &&& keys_ascend(members)
            &&& forall|i: int|
                0 <= i < members.len() ==> in_key_order((#[trigger] members[i]).1)
        },
        _ => true,
    }
}

// ---------------------------------------------------------------------------------------------
// Reading a document
// ---------------------------------------------------------------------------------------------
/// Declares [`serde_json::Value`], whose inside only the functions below see.
#[verifier::external_type_specification]
#[verifier::external_body]
pub struct ExValue(serde_json::Value);

/// The tree that a [`serde_json::Value`] holds.
pub uninterp spec fn value_tree(value: serde_json::Value) -> Tree;

/// What `serde_json::from_str` makes of a text: the tree it reads, or the words of its refusal.
pub uninterp spec fn json_reading(text: Seq<char>) -> Result<Tree, Seq<char>>;

/// One layer of a document: a value, or a list of documents that are not opened yet.
enum Layer {
    Null,
    Bool(bool),
    Number,
    Text(String),
    Array(Vec<serde_json::Value>),
    Object(Vec<(String, serde_json::Value)>),
}

impl Layer {
    /// The tree of which this is the top.
    spec fn tree(self) -> Tree {
        match self {
            Layer::Null => Tree::Null,
            Layer::Bool(flag) => Tree::Bool(flag),
            Layer::Number => Tree::Number,
            Layer::Text(text) => Tree::Text(text@),
            Layer::Array(items) => Tree::Array(
                Seq::new(items@.len(), |i: int| value_tree(items@[i])),
            ),
            Layer::Object(members) => Tree::Object(
                Seq::new(members@.len(), |i: int| (members@[i].0@, value_tree(members@[i].1))),
            ),
        }
    }
}

/// [`serde_json::from_str`] reads a text as one JSON value. What it reads, and the words with which
/// it refuses a text that is no JSON, depend on the text alone and are only named.
#[verifier::external_body]
fn from_str(text: &str) -> (reading: Result<serde_json::Value, String>)
    ensures
        match reading {
            Ok(value) => json_reading(text@) == Ok::<Tree, Seq<char>>(value_tree(value)),
            Err(fault) => json_reading(text@) == Err::<Tree, Seq<char>>(fault@),
        },
{
    serde_json::from_str::<serde_json::Value>(text).map_err(|fault| fault.to_string())
}

/// Matching on a [`serde_json::Value`] gives the kind of value it is and what it holds: the flag,
/// the text, the items in their order, or the members. `serde_json::Map`, which is a `BTreeMap`
/// unless the feature `preserve_order` is asked for, keeps its members sorted by their keys, each
/// key once, and its `into_iter` hands them out in that order. What number a number is, is left
/// out.
#[verifier::external_body]
fn open_value(value: serde_json::Value) -> (layer: Layer)
    ensures
        layer.tree() == value_tree(value),
        layer.tree() matches Tree::Object(members) ==> keys_ascend(members),
{
    match value {
        serde_json::Value::Null => Layer::Null,
        serde_json::Value::Bool(flag) => Layer::Bool(flag),
        serde_json::Value::Number(_) => Layer::Number,
        serde_json::Value::String(text) => Layer::Text(text),
        serde_json::Value::Array(items) => Layer::Array(items),
        serde_json::Value::Object(members) => Layer::Object(members.into_iter().collect()),
    }
}

/// Opens a value, layer by layer.
fn from_value(value: serde_json::Value) -> (json: Json)
    ensures
        json@ == value_tree(value),
        in_key_order(json@),
    decreases value_tree(value),
{
    let ghost tree = value_tree(value);
    match open_value(value) {
        Layer::Null => Json::Null,
        Layer::Bool(flag) => Json::Bool(flag),
        Layer::Number => Json::Number,
        Layer::Text(text) => Json::Text(text),
        Layer::Array(items) => {
            let mut out: Vec<Json> = Vec::new();
            let ghost all = items@;
            for item in iter: items
                invariant
                    iter.seq() == all,
                    tree == value_tree(value),
                    tree == Tree::Array(Seq::new(all.len(), |i: int| value_tree(all[i]))),
                    out@.len() == iter.index(),
                    forall|i: int|
                        0 <= i < out@.len() ==> (#[trigger] out@[i])@ == value_tree(all[i])
                            && in_key_order(out@[i]@),
            {
                assert(tree->Array_0[iter.index() as int] == value_tree(item));
                assert(decreases_to!(tree => tree->Array_0));
                assert(decreases_to!(tree->Array_0 => tree->Array_0[iter.index() as int]));
                out.push(from_value(item));
            }
            let json = Json::Array(out);
            proof {
                lemma_view(json);
                assert(trees(out@) =~= tree->Array_0);
            }
            json
        },
        Layer::Object(members) => {
            let mut out: Vec<(String, Json)> = Vec::new();
            let ghost all = members@;
            for member in iter: members
                invariant
                    iter.seq() == all,
                    tree == value_tree(value),
                    tree == Tree::Object(
                        Seq::new(all.len(), |i: int| (all[i].0@, value_tree(all[i].1))),
                    ),
                    out@.len() == iter.index(),
                    forall|i: int|
                        0 <= i < out@.len() ==> (#[trigger] out@[i]).0@ == all[i].0@ && out@[i].1@
                            == value_tree(all[i].1) && in_key_order(out@[i].1@),
            {
                assert(tree->Object_0[iter.index() as int] == (member.0@, value_tree(member.1)));
                assert(decreases_to!(tree => tree->Object_0));
                assert(decreases_to!(tree->Object_0 => tree->Object_0[iter.index() as int]));
                assert(decreases_to!(tree->Object_0[iter.index() as int] => tree->Object_0[iter.index() as int].1));
                out.push((member.0, from_value(member.1)));
            }
            let json = Json::Object(out);
            proof {
                lemma_view(json);
                assert(pairs(out@) =~= tree->Object_0);
            }
            json
        },
    }
}

/// Reads a text as a JSON document. In each object of the document, the keys ascend.
pub fn parse_json(text: &str) -> (reading: Result<Json, String>)
    ensures
        match reading {
            Ok(json) => json_reading(text@) == Ok::<Tree, Seq<char>>(json@) && in_key_order(json@),
            Err(fault) => json_reading(text@) == Err::<Tree, Seq<char>>(fault@),
        },
{
    match from_str(text) {
        Ok(value) => Ok(from_value(value)),
        Err(fault) => Err(fault),
    }
}

} // verus!
