//! Read-only navigation, and reading a scalar out of the node that was reached.

use vstd::prelude::*;
use crate::segment::{
    all_digits, build_path, digits_value, is_string_numeric, parse_index, split_path,
    PathSegment,
};
use crate::tree::{
    entry_views, find_key, node_views, index_child, key_child, lemma_find_key_first, lemma_find_key_none,
    opt_view, Entry, Node, Scalar, Tree,
};

verus! {

/// One segment applied to one node: an empty segment stays where it is, a
/// segment of digits is an array index, any other is a table key.
pub open spec fn resolve_segment(t: Tree, segment: Seq<char>) -> Option<Tree> {
    if segment.len() == 0 {
        Some(t)
    } else if all_digits(segment) {
        index_child(t, digits_value(segment))
    } else {
        key_child(t, segment)
    }
}

/// The segments applied one after the other, from the left; once a step finds
/// nothing, nothing is found.
pub open spec fn walk(t: Option<Tree>, segments: Seq<Seq<char>>) -> Option<Tree>
    decreases segments.len(),
{
    if segments.len() == 0 {
        t
    } else {
        match t {
            Some(node) => walk(resolve_segment(node, segments[0]), segments.drop_first()),
            None => None,
        }
    }
}

/// The node that a textual path leads to.
pub open spec fn navigate_path(t: Tree, path: Seq<char>) -> Option<Tree> {
    walk(Some(t), split_path(path))
}

/// One step by a string: the child under that very key where there is one,
/// else the string read as a path, where it has more than one segment.
pub open spec fn navigate_step(t: Tree, step: Seq<char>) -> Option<Tree> {
    match key_child(t, step) {
        Some(child) => Some(child),
        None => if split_path(step).len() > 1 {
            navigate_path(t, step)
        } else {
            None
        },
    }
}

/// What is read from a node that may be absent, against a default: the node's
/// scalar where it has one of the default's kind, and the default otherwise.
pub open spec fn extract(handle: Option<Tree>, default: Scalar) -> Scalar {
    match handle {
        Some(t) => match t.scalar() {
            Some(s) => if s.kind() == default.kind() {
                s
            } else {
                default
            },
            None => default,
        },
        None => default,
    }
}

/// Finds the first entry with the given key.
pub fn find_entry(entries: &Vec<Entry>, key: &str) -> (r: Option<usize>)
    ensures
        match r {
            Some(j) => find_key(entry_views(entries@), key@) == Some(j as int) && j
                < entries.len(),
            None => find_key(entry_views(entries@), key@) is None,
        },
{
    let wanted: String = key.to_owned();
    let mut j: usize = 0;
    while j < entries.len()
        invariant
            j <= entries.len(),
            wanted@ == key@,
            forall|k: int| 0 <= k < j ==> (#[trigger] entry_views(entries@)[k]).0 != key@,
        decreases entries.len() - j,
    {
        if entries[j].key == wanted {
            proof {
                lemma_find_key_first(entry_views(entries@), key@, j as int);
            }
            return Some(j);
        }
        j += 1;
    }
    proof {
        lemma_find_key_none(entry_views(entries@), key@);
    }
    None
}

/// The child of a table under a key.
pub fn get_key<'tr>(node: &'tr Node, key: &str) -> (r: Option<&'tr Node>)
    ensures
        opt_view(r) == key_child(node@, key@),
{
    match node {
        Node::Table(entries) => match find_entry(entries, key) {
            Some(j) => Some(&entries[j].value),
            None => None,
        },
        _ => None,
    }
}

/// The element of an array at an index.
pub fn get_index<'tr>(node: &'tr Node, index: usize) -> (r: Option<&'tr Node>)
    ensures
        opt_view(r) == index_child(node@, index as nat),
{
    match node {
        Node::Array(items) => {
            assert(node_views(items@).len() == items@.len());
            if index < items.len() {
                assert(node_views(items@)[index as int] == items@[index as int]@);
                Some(&items[index])
            } else {
                None
            }
        },
        _ => None,
    }
}

/// An array has no element at an index beyond the machine's largest.
pub proof fn lemma_array_fits(node: Node)
    ensures
        forall|i: nat| i > usize::MAX ==> index_child(node@, i) is None,
{
    match node {
        Node::Array(items) => {
            assert(node_views(items@).len() == items@.len());
            assert(items@.len() == items.len());
        },
        _ => {},
    }
}

/// Applies one raw segment of a textual path to a node.
pub fn resolve<'tr>(node: &'tr Node, segment: &str) -> (r: Option<&'tr Node>)
    ensures
        opt_view(r) == resolve_segment(node@, segment@),
{
    if segment.is_empty() {
        Some(node)
    } else if is_string_numeric(segment) {
        match parse_index(segment) {
            Some(index) => get_index(node, index),
            None => {
                proof {
                    lemma_array_fits(*node);
                }
                None
            },
        }
    } else {
        get_key(node, segment)
    }
}

impl PathSegment {
    /// Follows the segments from a node, left to right.
    pub fn apply<'tr>(&self, v: &'tr Node) -> (r: Option<&'tr Node>)
        ensures
            opt_view(r) == walk(Some(v@), self@),
    {
        let mut target: &'tr Node = v;
        let mut i: usize = 0;
        proof {
            assert(self@.skip(0) =~= self@);
        }
        while i < self.paths.len()
            invariant
                i <= self.paths.len(),
                walk(Some(v@), self@) == walk(Some(target@), self@.skip(i as int)),
            decreases self.paths.len() - i,
        {
            proof {
                assert(self@.skip(i as int).drop_first() =~= self@.skip(i + 1));
                assert(self@.skip(i as int)[0] == self.paths@[i as int]@);
            }
            match resolve(target, self.paths[i].as_str()) {
                Some(next) => {
                    target = next;
                },
                None => {
                    proof {
                        lemma_walk_none(self@.skip(i + 1));
                    }
                    return None;
                },
            }
            i += 1;
        }
        Some(target)
    }
}

/// From an absent node every path leads to an absent node.
pub proof fn lemma_walk_none(segments: Seq<Seq<char>>)
    ensures
        walk(None, segments) is None,
{
}

/// One step by a string from a node that may be absent.
pub fn path<'tr>(v: Option<&'tr Node>, p: &str) -> (r: Option<&'tr Node>)
    ensures
        opt_view(r) == match v {
            Some(node) => navigate_step(node@, p@),
            None => None,
        },
{
    match v {
        None => None,
        Some(node) => {
            let direct = get_key(node, p);
            if direct.is_some() {
                return direct;
            }
            let segments = build_path(p);
            if segments.paths.len() > 1 {
                segments.apply(node)
            } else {
                None
            }
        },
    }
}

/// One step by an index from a node that may be absent.
pub fn path_index<'tr>(v: Option<&'tr Node>, index: usize) -> (r: Option<&'tr Node>)
    ensures
        opt_view(r) == match v {
            Some(node) => index_child(node@, index as nat),
            None => None,
        },
{
    match v {
        None => None,
        Some(node) => get_index(node, index),
    }
}

/// A read-only handle: a node of a tree that lives elsewhere, or no node.
#[derive(Clone, Copy)]
pub struct TomlOpt<'tr> {
    pub valop: Option<&'tr Node>,
}

impl<'tr> View for TomlOpt<'tr> {
    type V = Option<Tree>;

    open spec fn view(&self) -> Option<Tree> {
        opt_view(self.valop)
    }
}

impl<'tr> TomlOpt<'tr> {
    /// The handle on a node.
    pub fn path(v: &'tr Node) -> (r: Self)
        ensures
            r@ == Some(v@),
    {
        Self { valop: Some(v) }
    }

    /// The node that the handle is on, if any.
    pub fn unpath(&self) -> (r: Option<&'tr Node>)
        ensures
            opt_view(r) == self@,
    {
        self.valop
    }

    /// The handle one step further, by a key or, failing that, by a path.
    pub fn at(self, rhs: &str) -> (r: Self)
        ensures
            r@ == match self@ {
                Some(t) => navigate_step(t, rhs@),
                None => None,
            },
    {
        TomlOpt { valop: path(self.valop, rhs) }
    }

    /// The handle one step further, by an array index.
    pub fn at_index(self, rhs: usize) -> (r: Self)
        ensures
            r@ == match self@ {
                Some(t) => index_child(t, rhs as nat),
                None => None,
            },
    {
        TomlOpt { valop: path_index(self.valop, rhs) }
    }

    /// The string at the handle, or the default where there is no string.
    pub fn or_string(self, rhs: String) -> (r: String)
        ensures
            Scalar::Str(r@) == extract(self@, Scalar::Str(rhs@)),
    {
        match self.valop {
            Some(Node::Str(s)) => s.clone(),
            _ => rhs,
        }
    }

    /// The string at the handle, borrowed, or the default where there is no
    /// string.
    pub fn or_str(self, rhs: &'tr str) -> (r: &'tr str)
        ensures
            Scalar::Str(r@) == extract(self@, Scalar::Str(rhs@)),
    {
        match self.valop {
            Some(Node::Str(s)) => s.as_str(),
            _ => rhs,
        }
    }

    /// The integer at the handle, or the default where there is no integer.
    pub fn or_int(self, rhs: i64) -> (r: i64)
        ensures
            Scalar::Int(r) == extract(self@, Scalar::Int(rhs)),
    {
        match self.valop {
            Some(Node::Int(v)) => *v,
            _ => rhs,
        }
    }

    /// The bit pattern of the floating-point number at the handle, or the
    /// default's where there is no such number.
    pub fn or_float_bits(self, rhs: u64) -> (r: u64)
        ensures
            Scalar::Float(r) == extract(self@, Scalar::Float(rhs)),
    {
        match self.valop {
            Some(Node::Float(bits)) => *bits,
            _ => rhs,
        }
    }

    /// The boolean at the handle, or the default where there is no boolean.
    pub fn or_bool(self, rhs: bool) -> (r: bool)
        ensures
            Scalar::Bool(r) == extract(self@, Scalar::Bool(rhs)),
    {
        match self.valop {
            Some(Node::Bool(b)) => *b,
            _ => rhs,
        }
    }
}

} // verus!
