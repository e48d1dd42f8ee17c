//! YAML values as plain data, and the calls that read and write them.

use serde_yaml::value::{Tag, TaggedValue};
use serde_yaml::{Error, Number, Value};
use vstd::prelude::*;

verus! {

/// The YAML values of `serde_yaml`.
#[verifier::external_type_specification]
#[verifier::external_body]
pub struct ExValue(Value);

/// The numbers of `serde_yaml`.
#[verifier::external_type_specification]
#[verifier::external_body]
pub struct ExNumber(Number);

/// The tags of `serde_yaml`.
#[verifier::external_type_specification]
#[verifier::external_body]
pub struct ExTag(Tag);

/// The errors of `serde_yaml`.
#[verifier::external_type_specification]
#[verifier::external_body]
pub struct ExError(Error);

/// A YAML value.
#[derive(Debug)]
pub enum Node {
    /// The null value.
    Null,
    /// A boolean.
    Bool(bool),
    /// A number.
    Number(Number),
    /// A string.
    Text(String),
    /// A sequence.
    List(Vec<Node>),
    /// A mapping, with its entries in order.
    Table(Vec<(Node, Node)>),
    /// A value with a tag.
    Tagged(Tag, Box<Node>),
}

/// A YAML value as a mathematical tree.
pub enum Tree {
    /// The null value.
    Null,
    /// A boolean.
    Bool(bool),
    /// A number.
    Number(Number),
    /// A string.
    Text(Seq<char>),
    /// A sequence.
    List(Seq<Tree>),
    /// A mapping, with its entries in order.
    Table(Seq<(Tree, Tree)>),
    /// A value with a tag.
    Tagged(Tag, Box<Tree>),
}

/// The tree that `node` stands for.
pub open spec fn tree_of_node(node: Node) -> Tree
    decreases node,
{
    match node {
        Node::Null => Tree::Null,
        Node::Bool(b) => Tree::Bool(b),
        Node::Number(n) => Tree::Number(n),
        Node::Text(s) => Tree::Text(s@),
        Node::List(items) => Tree::List(
            Seq::new(
                items@.len(),
                |i: int|
                    if 0 <= i < items@.len() {
                        tree_of_node(items@[i])
                    } else {
                        Tree::Null
                    },
            ),
        ),
        Node::Table(entries) => Tree::Table(
            Seq::new(
                entries@.len(),
                |i: int|
                    if 0 <= i < entries@.len() {
                        (tree_of_node(entries@[i].0), tree_of_node(entries@[i].1))
                    } else {
                        (Tree::Null, Tree::Null)
                    },
            ),
        ),
        Node::Tagged(tag, inner) => Tree::Tagged(tag, Box::new(tree_of_node(*inner))),
    }
}

impl View for Node {
    type V = Tree;

    open spec fn view(&self) -> Tree {
        tree_of_node(*self)
    }
}

/// What `serde_yaml::from_str` makes of `text`, read as one value; `None`
/// where it reports an error.
pub uninterp spec fn yaml_value(text: Seq<char>) -> Option<Tree>;

/// The tree that a value of `serde_yaml` holds.
pub uninterp spec fn value_tree(value: Value) -> Tree;

/// The text that `serde_yaml::to_string` writes for a value that holds
/// `tree`; `None` where it reports an error.
pub uninterp spec fn yaml_text(tree: Tree) -> Option<Seq<char>>;

/// The keys are texts, and no text is the key of two entries.
pub open spec fn distinct_text_keys(entries: Seq<(Tree, Tree)>) -> bool {
    &&& forall|i: int| 0 <= i < entries.len() ==> (#[trigger] entries[i]).0 is Text
    &&& forall|i: int, j: int|
        0 <= i < j < entries.len() ==> (#[trigger] entries[i]).0 != (#[trigger] entries[j]).0
}

/// The tree is a mapping of the kind that a document's metadata is written
/// as: its keys are distinct texts, and each of its values is a text or a
/// mapping from distinct texts to texts.
pub open spec fn plain_table(tree: Tree) -> bool {
    &&& tree matches Tree::Table(entries)
    &&& distinct_text_keys(entries)
    &&& forall|i: int|
        0 <= i < entries.len() ==> {
            ||| (#[trigger] entries[i]).1 is Text
            ||| (entries[i].1 matches Tree::Table(inner) && distinct_text_keys(inner) && forall|j: int|
                0 <= j < inner.len() ==> (#[trigger] inner[j]).1 is Text)
        }
}

/// Calls `serde_yaml::from_str` for a `Value`. The result depends on the
/// text alone: the value read, or an error where the text is no YAML.
#[verifier::external_body]
pub(crate) fn read_value(text: &str) -> (r: Result<Value, Error>)
    ensures
        match r {
            Ok(value) => yaml_value(text@) == Some(value_tree(value)),
            Err(_) => yaml_value(text@) is None,
        },
{
    serde_yaml::from_str::<Value>(text)
}

/// Copies a `Value` of `serde_yaml` into a `Node`, variant by variant; a
/// mapping's entries come in the order of `Mapping::iter`.
#[verifier::external_body]
pub(crate) fn node_of(value: &Value) -> (node: Node)
    ensures
        node@ == value_tree(*value),
{
    match value {
        Value::Null => Node::Null,
        Value::Bool(b) => Node::Bool(*b),
        Value::Number(n) => Node::Number(n.clone()),
        Value::String(s) => Node::Text(s.clone()),
        Value::Sequence(items) => Node::List(items.iter().map(node_of).collect()),
        Value::Mapping(m) => Node::Table(m.iter().map(|(k, v)| (node_of(k), node_of(v))).collect()),
        Value::Tagged(t) => Node::Tagged(t.tag.clone(), Box::new(node_of(&t.value))),
    }
}

/// Copies a `Node` into a `Value` of `serde_yaml`, variant by variant; a
/// mapping is collected from the entries in order. For a plain table, whose
/// keys are distinct, the value holds the node's tree.
#[verifier::external_body]
pub(crate) fn value_of(node: &Node) -> (value: Value)
    requires
        plain_table(node@),
    ensures
        value_tree(value) == node@,
{
    match node {
        Node::Null => Value::Null,
        Node::Bool(b) => Value::Bool(*b),
        Node::Number(n) => Value::Number(n.clone()),
        Node::Text(s) => Value::String(s.clone()),
        Node::List(items) => Value::Sequence(items.iter().map(value_of).collect()),
        Node::Table(entries) => Value::Mapping(entries.iter().map(|(k, v)| (value_of(k), value_of(v))).collect()),
        Node::Tagged(tag, inner) => Value::Tagged(Box::new(TaggedValue { tag: tag.clone(), value: value_of(inner) })),
    }
}

/// Calls `serde_yaml::to_string`. The result depends on the value alone: the
/// YAML text, or an error.
#[verifier::external_body]
pub(crate) fn write_value(value: &Value) -> (r: Result<String, Error>)
    ensures
        match r {
            Ok(text) => yaml_text(value_tree(*value)) == Some(text@),
            Err(_) => yaml_text(value_tree(*value)) is None,
        },
{
    serde_yaml::to_string(value)
}

/// Calls `to_string` on an error of `serde_yaml`: the error in words.
/// Nothing is stated of them.
#[verifier::external_body]
pub(crate) fn error_text(error: &Error) -> (text: String) {
    error.to_string()
}

/// The tree below all its tags.
pub open spec fn untagged(tree: Tree) -> Tree
    decreases tree,
{
    match tree {
        Tree::Tagged(_, inner) => untagged(*inner),
        _ => tree,
    }
}

/// The text that the tree is, its tags set aside; `None` where it is no
/// string.
pub open spec fn text_of(tree: Tree) -> Option<Seq<char>> {
    match untagged(tree) {
        Tree::Text(s) => Some(s),
        _ => None,
    }
}

/// The first index at or after `from` whose key is the text `key`; the
/// number of entries where there is none.
pub open spec fn field_position(entries: Seq<(Tree, Tree)>, key: Seq<char>, from: int) -> int
    decreases entries.len() - from,
{
    if from < 0 || from >= entries.len() {
        entries.len() as int
    } else if entries[from].0 == Tree::Text(key) {
        from
    } else {
        field_position(entries, key, from + 1)
    }
}

/// The value of the first entry whose key is the text `key`.
pub open spec fn field_of(entries: Seq<(Tree, Tree)>, key: Seq<char>) -> Option<Tree> {
    let at = field_position(entries, key, 0);
    if at < entries.len() {
        Some(entries[at].1)
    } else {
        None
    }
}

/// The entries of a mapping as trees.
pub open spec fn entry_trees(entries: Seq<(Node, Node)>) -> Seq<(Tree, Tree)> {
    Seq::new(entries.len(), |i: int| (entries[i].0@, entries[i].1@))
}

/// The tree of a mapping holds the trees of its entries.
pub proof fn lemma_table_view(entries: Vec<(Node, Node)>)
    ensures
        Node::Table(entries)@ == Tree::Table(entry_trees(entries@)),
{
    let built = Node::Table(entries)@;
    assert(built->Table_0 =~= entry_trees(entries@));
}

/// The first entry with the key is the one before which no entry has it.
pub proof fn lemma_field_position_is(entries: Seq<(Tree, Tree)>, key: Seq<char>, from: int, at: int)
    requires
        0 <= from <= at <= entries.len(),
        forall|j: int| from <= j < at ==> (#[trigger] entries[j]).0 != Tree::Text(key),
        at < entries.len() ==> entries[at].0 == Tree::Text(key),
    ensures
        field_position(entries, key, from) == at,
    decreases at - from,
{
    if from < at {
        lemma_field_position_is(entries, key, from + 1, at);
    }
}

/// The node below all its tags.
pub fn untag(node: &Node) -> (inner: &Node)
    ensures
        inner@ == untagged(node@),
    decreases node,
{
    match node {
        Node::Tagged(_, below) => untag(below),
        _ => node,
    }
}

/// The text that the node is, its tags set aside.
pub fn as_text(node: &Node) -> (text: Option<&String>)
    ensures
        match text {
            Some(s) => text_of(node@) == Some(s@),
            None => text_of(node@) is None,
        },
{
    match untag(node) {
        Node::Text(s) => Some(s),
        _ => None,
    }
}

/// The value of the first entry whose key is the text `key`.
pub fn field<'a>(entries: &'a Vec<(Node, Node)>, key: &str) -> (value: Option<&'a Node>)
    ensures
        match value {
            Some(node) => field_of(entry_trees(entries@), key@) == Some(node@),
            None => field_of(entry_trees(entries@), key@) is None,
        },
{
    let ghost trees = entry_trees(entries@);
    let wanted = key.to_owned();
    let mut at: usize = 0;
    while at < entries.len()
        invariant
            at <= entries.len(),
            wanted@ == key@,
            trees == entry_trees(entries@),
            forall|j: int| 0 <= j < at ==> (#[trigger] trees[j]).0 != Tree::Text(key@),
        decreases entries.len() - at,
    {
        assert(trees[at as int].0 == entries@[at as int].0@);
        match &entries[at].0 {
            Node::Text(name) => {
                if *name == wanted {
                    proof {
                        lemma_field_position_is(trees, key@, 0, at as int);
                    }
                    return Some(&entries[at].1);
                }
            },
            _ => {},
        }
        at += 1;
    }
    proof {
        lemma_field_position_is(trees, key@, 0, at as int);
    }
    None
}

} // verus!
