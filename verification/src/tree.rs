//! Descriptions: TOML and JSON documents as trees, read with the `toml` and `serde_json` crates.
use vstd::prelude::*;

use crate::text::same_text;

verus! {

/// A value of a document. A number is kept as the bits of the double that it is read as, where it
/// can be read as one; a whole number of TOML is another kind of value. A date is kept as its text.
pub enum Node {
    Text(String),
    Number(Option<u64>),
    Integer(i64),
    Boolean(bool),
    Date(String),
    List(Vec<Node>),
    Table(Vec<(String, Node)>),
    Null,
}

/// What a [`Node`] says.
pub enum Tree {
    Text(Seq<char>),
    Number(Option<u64>),
    Integer(i64),
    Boolean(bool),
    Date(Seq<char>),
    List(Seq<Tree>),
    Table(Seq<(Seq<char>, Tree)>),
    Null,
}

impl Node {
    pub open spec fn tree(self) -> Tree
        decreases self,
    {
        match self {
            Node::Text(text) => Tree::Text(text@),
            Node::Number(bits) => Tree::Number(bits),
            Node::Integer(number) => Tree::Integer(number),
            Node::Boolean(truth) => Tree::Boolean(truth),
            Node::Date(text) => Tree::Date(text@),
            Node::List(items) => Tree::List(
                Seq::new(
                    items@.len(),
                    |i: int|
                        if 0 <= i < items@.len() {
                            items@[i].tree()
                        } else {
                            Tree::Null
                        },
                ),
            ),
            Node::Table(items) => Tree::Table(
                Seq::new(
                    items@.len(),
                    |i: int|
                        if 0 <= i < items@.len() {
                            (items@[i].0@, items@[i].1.tree())
                        } else {
                            (Seq::empty(), Tree::Null)
                        },
                ),
            ),
            Node::Null => Tree::Null,
        }
    }
}

/// The value that goes by the name, from the entry `from` on.
pub open spec fn named_from(
    entries: Seq<(Seq<char>, Tree)>,
    name: Seq<char>,
    from: int,
) -> Option<Tree>
    decreases entries.len() - from,
{
    if from < 0 || from >= entries.len() {
        None
    } else if entries[from].0 == name {
        Some(entries[from].1)
    } else {
        named_from(entries, name, from + 1)
    }
}

impl Tree {
    /// The value that goes by the name in a table.
    pub open spec fn named(self, name: Seq<char>) -> Option<Tree> {
        match self {
            Tree::Table(entries) => named_from(entries, name, 0),
            _ => None,
        }
    }

    /// The items of the list that goes by the name in a table.
    pub open spec fn named_list(self, name: Seq<char>) -> Option<Seq<Tree>> {
        match self.named(name) {
            Some(Tree::List(items)) => Some(items),
            _ => None,
        }
    }

    /// The text that goes by the name in a table.
    pub open spec fn named_text(self, name: Seq<char>) -> Option<Seq<char>> {
        match self.named(name) {
            Some(Tree::Text(text)) => Some(text),
            _ => None,
        }
    }

    /// The number that goes by the name in a table, as the bits of a double. Neither a whole number
    /// of TOML nor any other kind of value is one.
    pub open spec fn named_number(self, name: Seq<char>) -> Option<u64> {
        match self.named(name) {
            Some(Tree::Number(bits)) => bits,
            _ => None,
        }
    }
}

/// What each node says.
pub open spec fn trees(nodes: Seq<Node>) -> Seq<Tree> {
    Seq::new(nodes.len(), |i: int| nodes[i].tree())
}

impl Node {
    /// The value that goes by the name in a table.
    pub fn get(&self, name: &str) -> (found: Option<&Node>)
        ensures
            match found {
                Some(node) => self.tree().named(name@) == Some(node.tree()),
                None => self.tree().named(name@) is None,
            },
    {
        match self {
            Node::Table(entries) => {
                let ghost views = self.tree()->Table_0;
                let mut i: usize = 0;
                while i < entries.len()
                    invariant
                        self.tree() == Tree::Table(views),
                        views.len() == entries@.len(),
                        forall|k: int|
                            0 <= k < entries@.len() ==> #[trigger] views[k] == (
                                entries@[k].0@,
                                entries@[k].1.tree(),
                            ),
                        i <= entries@.len(),
                        named_from(views, name@, 0) == named_from(views, name@, i as int),
                    decreases entries@.len() - i,
                {
                    assert(views[i as int] == (
                        entries@[i as int].0@,
                        entries@[i as int].1.tree(),
                    ));
                    if same_text(entries[i].0.as_str(), name) {
                        return Some(&entries[i].1);
                    }
                    i = i + 1;
                }
                None
            },
            _ => None,
        }
    }

    /// The items of the list that goes by the name in a table.
    pub fn get_list(&self, name: &str) -> (found: Option<&Vec<Node>>)
        ensures
            match found {
                Some(items) => self.tree().named_list(name@) == Some(trees(items@)),
                None => self.tree().named_list(name@) is None,
            },
    {
        match self.get(name) {
            Some(Node::List(items)) => {
                assert(self.tree().named_list(name@)->0 =~= trees(items@));
                Some(items)
            },
            _ => None,
        }
    }

    /// The text that goes by the name in a table.
    pub fn get_text(&self, name: &str) -> (found: Option<&String>)
        ensures
            match found {
                Some(text) => self.tree().named_text(name@) == Some(text@),
                None => self.tree().named_text(name@) is None,
            },
    {
        match self.get(name) {
            Some(Node::Text(text)) => Some(text),
            _ => None,
        }
    }

    /// The number that goes by the name in a table.
    pub fn get_number(&self, name: &str) -> (found: Option<u64>)
        ensures
            found == self.tree().named_number(name@),
    {
        match self.get(name) {
            Some(Node::Number(bits)) => *bits,
            _ => None,
        }
    }
}

/// A document of the `toml` crate.
#[verifier::external_type_specification]
#[verifier::external_body]
pub struct ExTomlValue(toml::Value);

/// A document of the `serde_json` crate.
#[verifier::external_type_specification]
#[verifier::external_body]
pub struct ExJsonValue(serde_json::Value);

/// The error of the `serde_json` crate.
#[verifier::external_type_specification]
#[verifier::external_body]
pub struct ExJsonError(serde_json::Error);

/// The document that the `toml` crate reads from a text.
pub uninterp spec fn toml_document(text: Seq<char>) -> Option<toml::Value>;

/// The values that a TOML document holds.
pub uninterp spec fn toml_contents(document: toml::Value) -> Tree;

/// The document that the `serde_json` crate reads from a text.
pub uninterp spec fn json_document(text: Seq<char>) -> Option<serde_json::Value>;

/// The values that a JSON document holds.
pub uninterp spec fn json_contents(document: serde_json::Value) -> Tree;

/// What a text says as TOML.
pub open spec fn toml_tree(text: Seq<char>) -> Option<Tree> {
    match toml_document(text) {
        Some(document) => Some(toml_contents(document)),
        None => None,
    }
}

/// What a text says as JSON.
pub open spec fn json_tree(text: Seq<char>) -> Option<Tree> {
    match json_document(text) {
        Some(document) => Some(json_contents(document)),
        None => None,
    }
}

/// Reads a TOML document with `toml::from_str`: the same text gives the same document or error.
#[verifier::external_body]
fn parse_toml(text: &str) -> (outcome: Result<toml::Value, toml::de::Error>)
    ensures
        outcome matches Ok(document) ==> toml_document(text@) == Some(document),
        outcome is Err ==> toml_document(text@) is None,
{
    toml::from_str(text)
}

/// Takes a `toml::Value` apart, variant by variant: a float as its bits, a date as its text.
#[verifier::external_body]
fn toml_node(document: toml::Value) -> (node: Node)
    ensures
        node.tree() == toml_contents(document),
{
    match document {
        toml::Value::String(text) => Node::Text(text),
        toml::Value::Float(number) => Node::Number(Some(number.to_bits())),
        toml::Value::Array(items) => Node::List(items.into_iter().map(toml_node).collect()),
        toml::Value::Table(entries) => Node::Table(
            entries.into_iter().map(|(name, value)| (name, toml_node(value))).collect(),
        ),
        toml::Value::Integer(number) => Node::Integer(number),
        toml::Value::Boolean(truth) => Node::Boolean(truth),
        toml::Value::Datetime(date) => Node::Date(date.to_string()),
    }
}

/// Reads a JSON document with `serde_json::from_str`: the same text gives the same document or
/// error.
#[verifier::external_body]
fn parse_json(text: &str) -> (outcome: Result<serde_json::Value, serde_json::Error>)
    ensures
        outcome matches Ok(document) ==> json_document(text@) == Some(document),
        outcome is Err ==> json_document(text@) is None,
{
    serde_json::from_str(text)
}

/// Takes a `serde_json::Value` apart, variant by variant: a number as the bits of what `as_f64` gives
/// for it.
#[verifier::external_body]
fn json_node(document: serde_json::Value) -> (node: Node)
    ensures
        node.tree() == json_contents(document),
{
    match document {
        serde_json::Value::String(text) => Node::Text(text),
        serde_json::Value::Number(number) => Node::Number(
            number.as_f64().map(|value| value.to_bits()),
        ),
        serde_json::Value::Array(items) => Node::List(items.into_iter().map(json_node).collect()),
        serde_json::Value::Object(entries) => Node::Table(
            entries.into_iter().map(|(name, value)| (name, json_node(value))).collect(),
        ),
        serde_json::Value::Bool(truth) => Node::Boolean(truth),
        serde_json::Value::Null => Node::Null,
    }
}

/// Reads a text as TOML.
pub fn read_toml(text: &str) -> (outcome: Result<Node, toml::de::Error>)
    ensures
        match outcome {
            Ok(node) => toml_tree(text@) == Some(node.tree()),
            Err(_) => toml_tree(text@) is None,
        },
{
    match parse_toml(text) {
        Ok(document) => Ok(toml_node(document)),
        Err(error) => Err(error),
    }
}

/// Reads a text as JSON; `None` where it is none.
pub fn read_json(text: &str) -> (found: Option<Node>)
    ensures
        match found {
            Some(node) => json_tree(text@) == Some(node.tree()),
            None => json_tree(text@) is None,
        },
{
    match parse_json(text) {
        Ok(document) => Some(json_node(document)),
        Err(_) => None,
    }
}

} // verus!
