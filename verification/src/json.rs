//! JSON values, as far as the journal and the hook protocol read and write
//! them. `serde_json` parses and prints; everything else works on [`Json`].

use vstd::prelude::*;

use crate::text::{copied, precedes, same};

verus! {

/// `serde_json::Value`, carried opaquely between the calls below.
#[verifier::external_type_specification]
#[verifier::external_body]
pub struct ExValue(serde_json::Value);

/// What a JSON value holds. Null, booleans and numbers are all [`Tree::Scalar`]:
/// nothing here reads them. An object keeps its fields in the order in which
/// `serde_json` walks them.
pub enum Tree {
    Scalar,
    Text(Seq<char>),
    Array(Seq<Tree>),
    Object(Seq<(Seq<char>, Tree)>),
}

/// What a `serde_json::Value` holds.
pub uninterp spec fn value_tree(value: serde_json::Value) -> Tree;

/// What `serde_json::from_str` reads out of a text, and nothing where it
/// reports an error.
pub uninterp spec fn parsed_tree(text: Seq<char>) -> Option<Tree>;

/// One level of a `serde_json::Value`.
pub enum Node {
    Scalar,
    Text(String),
    Items(Vec<serde_json::Value>),
    Fields(Vec<(String, serde_json::Value)>),
}

/// Calls `serde_json::from_str`. Which tree a text holds is a function of its
/// characters alone and is named, not described.
#[verifier::external_body]
fn parse_value(text: &str) -> (value: Option<serde_json::Value>)
    ensures
        parsed_tree(text@) == (match value {
            Some(value) => Some(value_tree(value)),
            None => None::<Tree>,
        }),
{
    serde_json::from_str::<serde_json::Value>(text).ok()
}

/// Tells the variants of a `serde_json::Value` apart and moves their fields
/// out. The fields of an object come in the order of `serde_json::Map`.
#[verifier::external_body]
fn open_value(value: serde_json::Value) -> (node: Node)
    ensures
        match node {
            Node::Scalar => value_tree(value) == Tree::Scalar,
            Node::Text(text) => value_tree(value) == Tree::Text(text@),
            Node::Items(items) => value_tree(value) == Tree::Array(
                Seq::new(items@.len(), |i: int| value_tree(items@[i])),
            ),
            Node::Fields(fields) => value_tree(value) == Tree::Object(
                Seq::new(fields@.len(), |i: int| (fields@[i].0@, value_tree(fields@[i].1))),
            ),
        },
{
    match value {
        serde_json::Value::Null => Node::Scalar,
        serde_json::Value::Bool(_) => Node::Scalar,
        serde_json::Value::Number(_) => Node::Scalar,
        serde_json::Value::String(text) => Node::Text(text),
        serde_json::Value::Array(items) => Node::Items(items),
        serde_json::Value::Object(fields) => Node::Fields(fields.into_iter().collect()),
    }
}

/// A JSON value of this library's own.
pub enum Json {
    Scalar,
    Text(String),
    Array(Vec<Json>),
    Object(Vec<(String, Json)>),
}

impl Json {
    /// What the value holds.
    pub open spec fn tree(self) -> Tree
        decreases self,
    {
        match self {
            Json::Scalar => Tree::Scalar,
            Json::Text(text) => Tree::Text(text@),
            Json::Array(items) => Tree::Array(
                Seq::new(
                    items@.len(),
                    |i: int|
                        if 0 <= i < items@.len() {
                            items@[i].tree()
                        } else {
                            Tree::Scalar
                        },
                ),
            ),
            Json::Object(fields) => Tree::Object(
                Seq::new(
                    fields@.len(),
                    |i: int|
                        if 0 <= i < fields@.len() {
                            (fields@[i].0@, fields@[i].1.tree())
                        } else {
                            (Seq::empty(), Tree::Scalar)
                        },
                ),
            ),
        }
    }
}

/// Moves a `serde_json::Value` into a [`Json`].
fn json_of(value: serde_json::Value) -> (json: Json)
    ensures
        json.tree() == value_tree(value),
    decreases value_tree(value),
{
    match open_value(value) {
        Node::Scalar => Json::Scalar,
        Node::Text(text) => Json::Text(text),
        Node::Items(items) => {
            let ghost all = items@;
            let ghost trees = value_tree(value)->Array_0;
            let mut out: Vec<Json> = Vec::new();
            for item in it: items
                invariant
                    it.seq() == all,
                    value_tree(value) is Array,
                    trees == value_tree(value)->Array_0,
                    trees == Seq::new(all.len(), |i: int| value_tree(all[i])),
                    out.len() == it.index(),
                    forall|i: int|
                        0 <= i < out.len() ==> (#[trigger] out@[i]).tree() == value_tree(all[i]),
            {
                proof {
                    assert(decreases_to!(value_tree(value) => value_tree(value)->Array_0));
                    assert(decreases_to!(trees => trees[out.len() as int]));
                }
                out.push(json_of(item));
            }
            let json = Json::Array(out);
            assert(json.tree()->Array_0 =~= trees);
            json
        },
        Node::Fields(fields) => {
            let ghost all = fields@;
            let ghost trees = value_tree(value)->Object_0;
            let mut out: Vec<(String, Json)> = Vec::new();
            for field in it: fields
                invariant
                    it.seq() == all,
                    value_tree(value) is Object,
                    trees == value_tree(value)->Object_0,
                    trees == Seq::new(all.len(), |i: int| (all[i].0@, value_tree(all[i].1))),
                    out.len() == it.index(),
                    forall|i: int|
                        0 <= i < out.len() ==> (#[trigger] out@[i]).0@ == all[i].0@
                            && out@[i].1.tree() == value_tree(all[i].1),
            {
                proof {
                    let at = out.len() as int;
                    assert(decreases_to!(value_tree(value) => value_tree(value)->Object_0));
                    assert(decreases_to!(trees => trees[at]));
                    assert(decreases_to!(trees[at] => trees[at].1));
                }
                let (key, inner) = field;
                out.push((key, json_of(inner)));
            }
            let json = Json::Object(out);
            assert(json.tree()->Object_0 =~= trees);
            json
        },
    }
}

/// Reads a JSON text.
pub fn parse_json(text: &str) -> (json: Option<Json>)
    ensures
        match json {
            Some(json) => parsed_tree(text@) == Some(json.tree()),
            None => parsed_tree(text@) is None,
        },
{
    match parse_value(text) {
        Some(value) => Some(json_of(value)),
        None => None,
    }
}

/// The value of the first field called `key`, if `tree` is an object with one.
pub open spec fn field(tree: Tree, key: Seq<char>) -> Option<Tree> {
    match tree {
        Tree::Object(fields) => first_field(fields, key),
        _ => None,
    }
}

/// The value of the first of `fields` that is called `key`.
pub open spec fn first_field(fields: Seq<(Seq<char>, Tree)>, key: Seq<char>) -> Option<Tree>
    decreases fields.len(),
{
    if fields.len() == 0 {
        None
    } else if fields[0].0 == key {
        Some(fields[0].1)
    } else {
        first_field(fields.skip(1), key)
    }
}

/// The characters of a string value.
pub open spec fn text_in(tree: Option<Tree>) -> Option<Seq<char>> {
    match tree {
        Some(Tree::Text(text)) => Some(text),
        _ => None,
    }
}

impl Json {
    /// The value of the field called `key`, if this is an object with one.
    pub fn get(&self, key: &str) -> (value: Option<&Json>)
        ensures
            match value {
                Some(value) => field(self.tree(), key@) == Some(value.tree()),
                None => field(self.tree(), key@) is None,
            },
    {
        match self {
            Json::Object(fields) => {
                let ghost trees = self.tree()->Object_0;
                let mut i: usize = 0;
                assert(trees.skip(0) =~= trees);
                while i < fields.len()
                    invariant
                        i <= fields.len(),
                        *self == Json::Object(*fields),
                        trees == self.tree()->Object_0,
                        trees.len() == fields.len(),
                        first_field(trees, key@) == first_field(trees.skip(i as int), key@),
                    decreases fields.len() - i,
                {
                    assert(trees[i as int] == (fields@[i as int].0@, fields@[i as int].1.tree()));
                    if same(fields[i].0.as_str(), key) {
                        return Some(&fields[i].1);
                    }
                    assert(trees.skip(i as int).skip(1) =~= trees.skip(i + 1));
                    i = i + 1;
                }
                None
            },
            _ => None,
        }
    }

    /// The characters of a string value.
    pub fn as_str(&self) -> (text: Option<&str>)
        ensures
            match text {
                Some(text) => text_in(Some(self.tree())) == Some(text@),
                None => text_in(Some(self.tree())) is None,
            },
    {
        match self {
            Json::Text(text) => Some(text.as_str()),
            _ => None,
        }
    }

    /// Whether this is an object.
    pub fn is_object(&self) -> (object: bool)
        ensures
            object == (self.tree() is Object),
    {
        match self {
            Json::Object(fields) => true,
            _ => false,
        }
    }
}

/// Whether `tree` is made of strings, arrays and objects alone, at most
/// `depth` of them inside one another.
pub open spec fn is_textual(tree: Tree, depth: nat) -> bool
    decreases depth,
{
    match tree {
        Tree::Scalar => false,
        Tree::Text(_) => true,
        Tree::Array(items) => depth > 0 && forall|i: int|
            0 <= i < items.len() ==> is_textual(#[trigger] items[i], (depth - 1) as nat),
        Tree::Object(fields) => depth > 0 && forall|i: int|
            0 <= i < fields.len() ==> is_textual((#[trigger] fields[i]).1, (depth - 1) as nat),
    }
}

/// What `serde_json::to_string` writes for a value of strings, arrays and
/// objects.
pub uninterp spec fn json_text(tree: Tree) -> Seq<char>;

/// Wraps a text in `serde_json::Value::String`.
#[verifier::external_body]
fn text_value(text: String) -> (value: serde_json::Value)
    ensures
        value_tree(value) == Tree::Text(text@),
{
    serde_json::Value::String(text)
}

/// Collects fields into a `serde_json::Map`, which keeps them in the order of
/// their names. Names that come in that order, each once, stay as they are.
#[verifier::external_body]
fn object_value(fields: Vec<(String, serde_json::Value)>) -> (value: serde_json::Value)
    requires
        forall|i: int, j: int|
            0 <= i < j < fields@.len() ==> precedes(
                (#[trigger] fields@[i]).0@,
                (#[trigger] fields@[j]).0@,
            ),
    ensures
        value_tree(value) == Tree::Object(
            Seq::new(fields@.len(), |i: int| (fields@[i].0@, value_tree(fields@[i].1))),
        ),
{
    serde_json::Value::Object(fields.into_iter().collect())
}

/// Calls `serde_json::to_string`. It fails on no value of strings, arrays and
/// objects. What it writes is named, not described; within the nesting that
/// `serde_json::from_str` follows, it is read back as the same value.
#[verifier::external_body]
fn value_text(value: &serde_json::Value) -> (text: Option<String>)
    requires
        is_textual(value_tree(*value), 127),
    ensures
        text matches Some(text) && text@ == json_text(value_tree(*value)) && parsed_tree(text@)
            == Some(value_tree(*value)),
{
    serde_json::to_string(value).ok()
}

/// An object with one field.
pub open spec fn one_field(name: Seq<char>, value: Tree) -> Tree {
    Tree::Object(seq![(name, value)])
}

/// An object with two fields of text.
pub open spec fn two_texts(
    first: Seq<char>,
    first_text: Seq<char>,
    second: Seq<char>,
    second_text: Seq<char>,
) -> Tree {
    Tree::Object(seq![(first, Tree::Text(first_text)), (second, Tree::Text(second_text))])
}

/// Writes an object whose one field is an object with two fields of text.
pub fn write_nested_texts(
    name: &str,
    first: &str,
    first_text: String,
    second: &str,
    second_text: String,
) -> (text: String)
    requires
        precedes(first@, second@),
    ensures
        text@ == json_text(
            one_field(name@, two_texts(first@, first_text@, second@, second_text@)),
        ),
        parsed_tree(text@) == Some(
            one_field(name@, two_texts(first@, first_text@, second@, second_text@)),
        ),
{
    let ghost inner_tree = two_texts(first@, first_text@, second@, second_text@);
    let ghost outer_tree = one_field(name@, inner_tree);
    let mut inner: Vec<(String, serde_json::Value)> = Vec::new();
    inner.push((copied(first), text_value(first_text)));
    inner.push((copied(second), text_value(second_text)));
    let inner = object_value(inner);
    assert(value_tree(inner)->Object_0 =~= inner_tree->Object_0);
    let mut outer: Vec<(String, serde_json::Value)> = Vec::new();
    outer.push((copied(name), inner));
    let outer = object_value(outer);
    assert(value_tree(outer)->Object_0 =~= outer_tree->Object_0);
    proof {
        assert(is_textual(inner_tree, 126)) by {
            assert(is_textual(Tree::Text(first_text@), 125));
            assert(is_textual(Tree::Text(second_text@), 125));
        }
        assert(is_textual(outer_tree, 127));
    }
    match value_text(&outer) {
        Some(text) => text,
        None => String::new(),
    }
}

/// What is written for one string.
pub open spec fn quoted(text: Seq<char>) -> Seq<char> {
    json_text(Tree::Text(text))
}

/// Writes one string as JSON.
pub fn quote(text: &str) -> (out: String)
    ensures
        out@ == quoted(text@),
        parsed_tree(out@) == Some(Tree::Text(text@)),
{
    match value_text(&text_value(copied(text))) {
        Some(out) => out,
        None => String::new(),
    }
}

} // verus!
