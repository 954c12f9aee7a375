//! The configuration tree and its mathematical model.

use vstd::prelude::*;

verus! {

/// One key of a table together with the node stored under it.
#[derive(Debug, PartialEq, Eq)]
pub struct Entry {
    pub key: String,
    pub value: Node,
}

/// A node of the configuration tree.
///
/// A floating-point scalar is held by its IEEE-754 bit pattern, a date-time by
/// its text. A table keeps its entries in insertion order; a key is looked up
/// from the front, so the first entry with a given key is the one that counts.
#[derive(Debug, PartialEq, Eq)]
pub enum Node {
    Str(String),
    Int(i64),
    Float(u64),
    Bool(bool),
    Datetime(String),
    Array(Vec<Node>),
    Table(Vec<Entry>),
}

/// The mathematical value of a [`Node`]: what every contract speaks of.
pub enum Tree {
    Str(Seq<char>),
    Int(i64),
    Float(u64),
    Bool(bool),
    Datetime(Seq<char>),
    Array(Seq<Tree>),
    Table(Seq<(Seq<char>, Tree)>),
}

/// The models of a sequence of nodes, element by element.
pub open spec fn node_views(items: Seq<Node>) -> Seq<Tree>
    decreases items,
{
    Seq::new(
        items.len(),
        |i: int|
            if 0 <= i < items.len() {
                items[i].view()
            } else {
                Tree::Bool(false)
            },
    )
}

/// The models of a sequence of table entries: key text and value model.
pub open spec fn entry_views(entries: Seq<Entry>) -> Seq<(Seq<char>, Tree)>
    decreases entries,
{
    Seq::new(
        entries.len(),
        |i: int|
            if 0 <= i < entries.len() {
                (entries[i].key@, entries[i].value.view())
            } else {
                (Seq::empty(), Tree::Bool(false))
            },
    )
}

impl View for Node {
    type V = Tree;

    open spec fn view(&self) -> Tree
        decreases self,
    {
        match self {
            Node::Str(s) => Tree::Str(s@),
            Node::Int(v) => Tree::Int(*v),
            Node::Float(bits) => Tree::Float(*bits),
            Node::Bool(b) => Tree::Bool(*b),
            Node::Datetime(s) => Tree::Datetime(s@),
            Node::Array(items) => Tree::Array(node_views(items@)),
            Node::Table(entries) => Tree::Table(entry_views(entries@)),
        }
    }
}

/// Replacing one node of a sequence replaces its model and no other.
pub proof fn lemma_node_views_update(items: Seq<Node>, i: int, n: Node)
    requires
        0 <= i < items.len(),
    ensures
        node_views(items.update(i, n)) == node_views(items).update(i, n@),
{
    assert(node_views(items.update(i, n)) =~= node_views(items).update(i, n@));
}

/// Appending a node appends its model.
pub proof fn lemma_node_views_push(items: Seq<Node>, n: Node)
    ensures
        node_views(items.push(n)) == node_views(items).push(n@),
{
    assert(node_views(items.push(n)) =~= node_views(items).push(n@));
}

/// Replacing one entry of a sequence replaces its model and no other.
pub proof fn lemma_entry_views_update(entries: Seq<Entry>, i: int, e: Entry)
    requires
        0 <= i < entries.len(),
    ensures
        entry_views(entries.update(i, e)) == entry_views(entries).update(i, (e.key@, e.value@)),
{
    assert(entry_views(entries.update(i, e)) =~= entry_views(entries).update(
        i,
        (e.key@, e.value@),
    ));
}

/// Appending an entry appends its model.
pub proof fn lemma_entry_views_push(entries: Seq<Entry>, e: Entry)
    ensures
        entry_views(entries.push(e)) == entry_views(entries).push((e.key@, e.value@)),
{
    assert(entry_views(entries.push(e)) =~= entry_views(entries).push((e.key@, e.value@)));
}

/// A scalar value as the contracts see it: one of the four kinds that can be
/// read out of the tree and written into it.
pub enum Scalar {
    Str(Seq<char>),
    Int(i64),
    Float(u64),
    Bool(bool),
}

/// The kind of a scalar.
#[derive(PartialEq, Eq, Structural)]
pub enum ScalarKind {
    Str,
    Int,
    Float,
    Bool,
}

impl Scalar {
    /// The kind of this scalar.
    pub open spec fn kind(self) -> ScalarKind {
        match self {
            Scalar::Str(_) => ScalarKind::Str,
            Scalar::Int(_) => ScalarKind::Int,
            Scalar::Float(_) => ScalarKind::Float,
            Scalar::Bool(_) => ScalarKind::Bool,
        }
    }

    /// The leaf that holds this scalar.
    pub open spec fn tree(self) -> Tree {
        match self {
            Scalar::Str(s) => Tree::Str(s),
            Scalar::Int(v) => Tree::Int(v),
            Scalar::Float(bits) => Tree::Float(bits),
            Scalar::Bool(b) => Tree::Bool(b),
        }
    }
}

/// Whether no key stands twice among the entries of a table.
pub open spec fn keys_unique(entries: Seq<(Seq<char>, Tree)>) -> bool {
    forall|i: int, j: int| 0 <= i < j < entries.len() ==> entries[i].0 != entries[j].0
}

impl Tree {
    /// Whether every table of the tree, at any depth, holds each of its keys
    /// once: what a parsed document gives, and what every write keeps.
    pub open spec fn well_formed(self) -> bool
        decreases self,
    {
        match self {
            Tree::Array(items) => forall|i: int|
                0 <= i < items.len() ==> (#[trigger] items[i]).well_formed(),
            Tree::Table(entries) => keys_unique(entries) && forall|i: int|
                0 <= i < entries.len() ==> (#[trigger] entries[i]).1.well_formed(),
            _ => true,
        }
    }

    /// The scalar that a leaf holds; a date-time, an array and a table hold none.
    pub open spec fn scalar(self) -> Option<Scalar> {
        match self {
            Tree::Str(s) => Some(Scalar::Str(s)),
            Tree::Int(v) => Some(Scalar::Int(v)),
            Tree::Float(bits) => Some(Scalar::Float(bits)),
            Tree::Bool(b) => Some(Scalar::Bool(b)),
            _ => None,
        }
    }
}

/// The model of a node that may be absent.
pub open spec fn opt_view(node: Option<&Node>) -> Option<Tree> {
    match node {
        Some(n) => Some(n@),
        None => None,
    }
}

/// The position of the first entry with the given key, if there is one.
pub open spec fn find_key(entries: Seq<(Seq<char>, Tree)>, key: Seq<char>) -> Option<int>
    decreases entries.len(),
{
    if entries.len() == 0 {
        None
    } else {
        match find_key(entries.drop_last(), key) {
            Some(j) => Some(j),
            None => if entries.last().0 == key {
                Some(entries.len() - 1)
            } else {
                None
            },
        }
    }
}

/// What `find_key` answers: the first position that holds the key, or `None`
/// where no position does.
pub proof fn lemma_find_key(entries: Seq<(Seq<char>, Tree)>, key: Seq<char>)
    ensures
        match find_key(entries, key) {
            Some(j) => 0 <= j < entries.len() && entries[j].0 == key && forall|k: int|
                0 <= k < j ==> (#[trigger] entries[k]).0 != key,
            None => forall|k: int| 0 <= k < entries.len() ==> (#[trigger] entries[k]).0 != key,
        },
    decreases entries.len(),
{
    if entries.len() > 0 {
        lemma_find_key(entries.drop_last(), key);
        assert forall|k: int| 0 <= k < entries.len() - 1 implies entries.drop_last()[k]
            == entries[k] by {}
        match find_key(entries.drop_last(), key) {
            Some(j) => {
                assert forall|k: int| 0 <= k < j implies (#[trigger] entries[k]).0 != key by {
                    assert(entries.drop_last()[k] == entries[k]);
                }
            },
            None => {
                assert forall|k: int| 0 <= k < entries.len() - 1 implies (#[trigger] entries[k]).0
                    != key by {
                    assert(entries.drop_last()[k] == entries[k]);
                }
            },
        }
    }
}

/// A position that holds the key, with none before it that does, is the one
/// `find_key` answers.
pub proof fn lemma_find_key_first(entries: Seq<(Seq<char>, Tree)>, key: Seq<char>, j: int)
    requires
        0 <= j < entries.len(),
        entries[j].0 == key,
        forall|k: int| 0 <= k < j ==> (#[trigger] entries[k]).0 != key,
    ensures
        find_key(entries, key) == Some(j),
{
    lemma_find_key(entries, key);
}

/// Where no position holds the key, `find_key` answers `None`.
pub proof fn lemma_find_key_none(entries: Seq<(Seq<char>, Tree)>, key: Seq<char>)
    requires
        forall|k: int| 0 <= k < entries.len() ==> (#[trigger] entries[k]).0 != key,
    ensures
        find_key(entries, key) is None,
{
    lemma_find_key(entries, key);
}

/// The child of a table under a key; `None` for a missing key and for a node
/// that is no table.
pub open spec fn key_child(t: Tree, key: Seq<char>) -> Option<Tree> {
    match t {
        Tree::Table(entries) => match find_key(entries, key) {
            Some(j) => Some(entries[j].1),
            None => None,
        },
        _ => None,
    }
}

/// The element of an array at an index; `None` for an index past the end and
/// for a node that is no array.
pub open spec fn index_child(t: Tree, i: nat) -> Option<Tree> {
    match t {
        Tree::Array(items) => if i < items.len() {
            Some(items[i as int])
        } else {
            None
        },
        _ => None,
    }
}

impl Node {
    /// The string that the node holds, if it holds one.
    pub fn as_str(&self) -> (r: Option<&str>)
        ensures
            match r {
                Some(s) => self@ == Tree::Str(s@),
                None => !(self@ is Str),
            },
    {
        match self {
            Node::Str(s) => Some(s.as_str()),
            _ => None,
        }
    }

    /// The integer that the node holds, if it holds one.
    pub fn as_integer(&self) -> (r: Option<i64>)
        ensures
            match r {
                Some(v) => self@ == Tree::Int(v),
                None => !(self@ is Int),
            },
    {
        match self {
            Node::Int(v) => Some(*v),
            _ => None,
        }
    }

    /// The bit pattern of the floating-point number that the node holds, if it
    /// holds one.
    pub fn as_float_bits(&self) -> (r: Option<u64>)
        ensures
            match r {
                Some(bits) => self@ == Tree::Float(bits),
                None => !(self@ is Float),
            },
    {
        match self {
            Node::Float(bits) => Some(*bits),
            _ => None,
        }
    }

    /// The boolean that the node holds, if it holds one.
    pub fn as_bool(&self) -> (r: Option<bool>)
        ensures
            match r {
                Some(b) => self@ == Tree::Bool(b),
                None => !(self@ is Bool),
            },
    {
        match self {
            Node::Bool(b) => Some(*b),
            _ => None,
        }
    }
}

} // verus!
