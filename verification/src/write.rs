//! Navigation that carries an exclusive reference, and the writes through it.

use vstd::prelude::*;
use crate::read::{
    extract, find_entry, get_index, get_key, lemma_array_fits, navigate_step, resolve_segment,
    walk,
};
use crate::segment::{
    all_digits, build_path, digits_value, is_string_numeric, parse_index, split_path,
    PathSegment,
};
use crate::tree::{
    entry_views, find_key, index_child, key_child, lemma_entry_views_push,
    lemma_entry_views_update, lemma_find_key, lemma_node_views_push, lemma_node_views_update,
    node_views, Entry, Node, Scalar, Tree,
};

verus! {

/// A table with the value under a key replaced; any other tree, and a table
/// without that key, as it is.
pub open spec fn put_key(t: Tree, key: Seq<char>, child: Tree) -> Tree {
    match t {
        Tree::Table(entries) => match find_key(entries, key) {
            Some(j) => Tree::Table(entries.update(j, (entries[j].0, child))),
            None => t,
        },
        _ => t,
    }
}

/// An array with the element at an index replaced; any other tree, and an
/// array that ends before that index, as it is.
pub open spec fn put_index(t: Tree, i: nat, child: Tree) -> Tree {
    match t {
        Tree::Array(items) => if i < items.len() {
            Tree::Array(items.update(i as int, child))
        } else {
            t
        },
        _ => t,
    }
}

/// A tree with the node that one segment resolves to replaced.
pub open spec fn put_segment(t: Tree, segment: Seq<char>, child: Tree) -> Tree {
    if segment.len() == 0 {
        child
    } else if all_digits(segment) {
        put_index(t, digits_value(segment), child)
    } else {
        put_key(t, segment, child)
    }
}

/// A tree with the node at the end of a path replaced; where the path leads
/// nowhere, the tree as it is.
pub open spec fn put_path(t: Tree, segments: Seq<Seq<char>>, new: Tree) -> Tree
    decreases segments.len(),
{
    if segments.len() == 0 {
        new
    } else {
        match resolve_segment(t, segments[0]) {
            Some(child) => put_segment(
                t,
                segments[0],
                put_path(child, segments.drop_first(), new),
            ),
            None => t,
        }
    }
}

/// Putting back the node that a segment resolves to changes nothing.
pub proof fn lemma_put_segment_same(t: Tree, segment: Seq<char>)
    ensures
        match resolve_segment(t, segment) {
            Some(child) => put_segment(t, segment, child) == t,
            None => true,
        },
{
    match t {
        Tree::Array(items) => {
            let i = digits_value(segment);
            if i < items.len() {
                assert(items.update(i as int, items[i as int]) =~= items);
            }
        },
        Tree::Table(entries) => {
            lemma_find_key(entries, segment);
            match find_key(entries, segment) {
                Some(j) => {
                    assert(entries.update(j, (entries[j].0, entries[j].1)) =~= entries);
                },
                None => {},
            }
        },
        _ => {},
    }
}

/// The exclusive counterpart of a key lookup: the child under a key, through
/// which the table can be written.
///
/// The key is first looked for on a shared view of the table; only the entry
/// found there is then borrowed exclusively, by its position.
pub fn get_key_mut<'tr>(node: &'tr mut Node, key: &str) -> (r: Option<&'tr mut Node>)
    ensures
        match r {
            Some(child) => key_child(old(node)@, key@) == Some(child@) && final(node)@ == put_key(
                old(node)@,
                key@,
                final(child)@,
            ),
            None => key_child(old(node)@, key@) is None && final(node)@ == old(node)@,
        },
{
    match node {
        Node::Table(entries) => {
            let found = find_entry(entries, key);
            match found {
                Some(j) => {
                    let ghost before = entries@;
                    proof {
                        lemma_find_key(entry_views(before), key@);
                    }
                    let entry = &mut entries[j];
                    let child = &mut entry.value;
                    proof {
                        lemma_entry_views_update(
                            before,
                            j as int,
                            Entry { key: before[j as int].key, value: *final(child) },
                        );
                    }
                    Some(child)
                },
                None => None,
            }
        },
        _ => None,
    }
}

/// The exclusive counterpart of an index lookup.
pub fn get_index_mut<'tr>(node: &'tr mut Node, index: usize) -> (r: Option<&'tr mut Node>)
    ensures
        match r {
            Some(child) => index_child(old(node)@, index as nat) == Some(child@) && final(node)@
                == put_index(old(node)@, index as nat, final(child)@),
            None => index_child(old(node)@, index as nat) is None && final(node)@ == old(node)@,
        },
{
    match node {
        Node::Array(items) => {
            assert(node_views(items@).len() == items@.len());
            if index < items.len() {
                let ghost before = items@;
                assert(node_views(before)[index as int] == before[index as int]@);
                let child = &mut items[index];
                proof {
                    lemma_node_views_update(before, index as int, *final(child));
                }
                Some(child)
            } else {
                None
            }
        },
        _ => None,
    }
}

/// Applies one raw segment of a textual path, keeping exclusive access.
pub fn resolve_mut<'tr>(node: &'tr mut Node, segment: &str) -> (r: Option<&'tr mut Node>)
    ensures
        match r {
            Some(child) => resolve_segment(old(node)@, segment@) == Some(child@) && final(node)@
                == put_segment(old(node)@, segment@, final(child)@),
            None => resolve_segment(old(node)@, segment@) is None && final(node)@ == old(node)@,
        },
{
    if segment.is_empty() {
        Some(node)
    } else if is_string_numeric(segment) {
        match parse_index(segment) {
            Some(index) => get_index_mut(node, index),
            None => {
                proof {
                    lemma_array_fits(*node);
                }
                None
            },
        }
    } else {
        get_key_mut(node, segment)
    }
}

impl PathSegment {
    /// Follows the segments from position `from` on, keeping exclusive access.
    fn apply_mut_from<'tr>(&self, v: &'tr mut Node, from: usize) -> (r: Option<&'tr mut Node>)
        requires
            from <= self.paths.len(),
        ensures
            match r {
                Some(target) => walk(Some(old(v)@), self@.skip(from as int)) == Some(target@)
                    && final(v)@ == put_path(old(v)@, self@.skip(from as int), final(target)@),
                None => walk(Some(old(v)@), self@.skip(from as int)) is None && final(v)@ == old(
                    v,
                )@,
            },
        decreases self.paths.len() - from,
    {
        if from >= self.paths.len() {
            assert(self@.skip(from as int).len() == 0);
            return Some(v);
        }
        proof {
            assert(self@.skip(from as int).len() > 0);
            assert(self@.skip(from as int).drop_first() =~= self@.skip(from + 1));
            assert(self@.skip(from as int)[0] == self.paths@[from as int]@);
        }
        match resolve_mut(v, self.paths[from].as_str()) {
            Some(child) => {
                let ghost segs = self@.skip(from as int);
                let r = self.apply_mut_from(child, from + 1);
                proof {
                    if r is None {
                        lemma_put_segment_same(old(v)@, segs[0]);
                    }
                }
                r
            },
            None => None,
        }
    }

    /// Follows the segments from a node, left to right, keeping exclusive
    /// access.
    pub fn apply_mut<'tr>(&self, v: &'tr mut Node) -> (r: Option<&'tr mut Node>)
        ensures
            match r {
                Some(target) => walk(Some(old(v)@), self@) == Some(target@) && final(v)@
                    == put_path(old(v)@, self@, final(target)@),
                None => walk(Some(old(v)@), self@) is None && final(v)@ == old(v)@,
            },
    {
        proof {
            assert(self@.skip(0) =~= self@);
        }
        self.apply_mut_from(v, 0)
    }
}

/// A tree with the node that one step by a string leads to replaced: the
/// child under that very key where there is one, else the node at the end of
/// the string read as a path, where it has more than one segment.
pub open spec fn put_step(t: Tree, step: Seq<char>, new: Tree) -> Tree {
    match key_child(t, step) {
        Some(_) => put_key(t, step, new),
        None => if split_path(step).len() > 1 {
            put_path(t, split_path(step), new)
        } else {
            t
        },
    }
}

/// One step by a string, keeping exclusive access.
///
/// The child is looked for through a shared view first, and borrowed
/// exclusively only once it is known to be there.
pub fn path_mut<'tr>(v: &'tr mut Node, p: &str) -> (r: Option<&'tr mut Node>)
    ensures
        match r {
            Some(target) => navigate_step(old(v)@, p@) == Some(target@) && final(v)@ == put_step(
                old(v)@,
                p@,
                final(target)@,
            ),
            None => navigate_step(old(v)@, p@) is None && final(v)@ == old(v)@,
        },
{
    let present: bool = get_key(v, p).is_some();
    if present {
        get_key_mut(v, p)
    } else {
        let segments = build_path(p);
        if segments.paths.len() > 1 {
            segments.apply_mut(v)
        } else {
            None
        }
    }
}

/// One step by an index, keeping exclusive access.
pub fn path_index_mut<'tr>(v: &'tr mut Node, index: usize) -> (r: Option<&'tr mut Node>)
    ensures
        match r {
            Some(target) => index_child(old(v)@, index as nat) == Some(target@) && final(v)@
                == put_index(old(v)@, index as nat, final(target)@),
            None => index_child(old(v)@, index as nat) is None && final(v)@ == old(v)@,
        },
{
    let present: bool = get_index(v, index).is_some();
    if present {
        get_index_mut(v, index)
    } else {
        None
    }
}

/// A leaf with its scalar replaced by one of the same kind; a node that holds
/// no scalar of that kind, as it is.
pub open spec fn replace_if_matching(t: Tree, value: Scalar) -> Tree {
    match t.scalar() {
        Some(held) => if held.kind() == value.kind() {
            value.tree()
        } else {
            t
        },
        None => t,
    }
}

/// An array with values appended in order; any other tree as it is.
pub open spec fn append(t: Tree, values: Seq<Tree>) -> Tree {
    match t {
        Tree::Array(items) => Tree::Array(items + values),
        _ => t,
    }
}

/// A table with a key set to a value: in place where the key is there, at the
/// end where it is new; any other tree as it is.
pub open spec fn upsert(t: Tree, key: Seq<char>, value: Tree) -> Tree {
    match t {
        Tree::Table(entries) => match find_key(entries, key) {
            Some(j) => Tree::Table(entries.update(j, (key, value))),
            None => Tree::Table(entries.push((key, value))),
        },
        _ => t,
    }
}

/// Writes a string into a node that holds a string.
pub fn replace_string(node: &mut Node, value: String)
    ensures
        final(node)@ == replace_if_matching(old(node)@, Scalar::Str(value@)),
{
    if let Node::Str(_) = node {
        *node = Node::Str(value);
    }
}

/// Writes an integer into a node that holds an integer.
pub fn replace_int(node: &mut Node, value: i64)
    ensures
        final(node)@ == replace_if_matching(old(node)@, Scalar::Int(value)),
{
    if let Node::Int(_) = node {
        *node = Node::Int(value);
    }
}

/// Writes a floating-point number, given by its bit pattern, into a node that
/// holds such a number.
pub fn replace_float_bits(node: &mut Node, bits: u64)
    ensures
        final(node)@ == replace_if_matching(old(node)@, Scalar::Float(bits)),
{
    if let Node::Float(_) = node {
        *node = Node::Float(bits);
    }
}

/// Writes a boolean into a node that holds a boolean.
pub fn replace_bool(node: &mut Node, value: bool)
    ensures
        final(node)@ == replace_if_matching(old(node)@, Scalar::Bool(value)),
{
    if let Node::Bool(_) = node {
        *node = Node::Bool(value);
    }
}

/// Appends one value to a node that is an array.
pub fn push_value(node: &mut Node, value: Node)
    ensures
        final(node)@ == append(old(node)@, seq![value@]),
{
    match node {
        Node::Array(items) => {
            let ghost before = items@;
            items.push(value);
            proof {
                lemma_node_views_push(before, value);
                assert(node_views(before) + seq![value@] =~= node_views(before).push(value@));
            }
        },
        _ => {},
    }
}

/// Appends values, in order, to a node that is an array.
pub fn push_values(node: &mut Node, values: Vec<Node>)
    ensures
        final(node)@ == append(old(node)@, node_views(values@)),
{
    match node {
        Node::Array(items) => {
            let ghost before = items@;
            let mut values = values;
            let ghost added = values@;
            items.append(&mut values);
            proof {
                assert(node_views(before + added) =~= node_views(before) + node_views(added));
            }
        },
        _ => {},
    }
}

/// Sets a key of a node that is a table.
pub fn upsert_entry(node: &mut Node, key: &str, value: Node)
    ensures
        final(node)@ == upsert(old(node)@, key@, value@),
{
    match node {
        Node::Table(entries) => {
            let ghost before = entries@;
            proof {
                lemma_find_key(entry_views(before), key@);
            }
            match find_entry(entries, key) {
                Some(j) => {
                    entries[j].value = value;
                    proof {
                        lemma_entry_views_update(
                            before,
                            j as int,
                            Entry { key: before[j as int].key, value: value },
                        );
                    }
                },
                None => {
                    let entry = Entry { key: key.to_owned(), value: value };
                    proof {
                        lemma_entry_views_push(before, entry);
                    }
                    entries.push(entry);
                },
            }
        },
        _ => {},
    }
}

/// An exclusive handle: a node of a tree that lives elsewhere, open for
/// writing, or no node.
///
/// While the handle lives the tree is reached through it alone. Its view is
/// the node as it stands now. The contracts below also speak of the node as
/// the handle will leave it, which ties a write through the handle to the
/// tree the handle was taken from. A write hands the handle back, so that
/// writes can be chained; it never moves the handle to another node.
pub struct TomlOptMut<'tr> {
    pub valop: Option<&'tr mut Node>,
}

impl<'tr> View for TomlOptMut<'tr> {
    type V = Option<Tree>;

    open spec fn view(&self) -> Option<Tree> {
        match self.valop {
            Some(node) => Some(node@),
            None => None,
        }
    }
}

impl<'tr> TomlOptMut<'tr> {
    /// The handle on a node.
    pub fn path(v: &'tr mut Node) -> (r: Self)
        ensures
            r@ == Some(old(v)@),
            r.valop is Some,
            *final(r.valop->0) == *final(v),
    {
        Self { valop: Some(v) }
    }

    /// The node that the handle is on, if any.
    pub fn unpath(&self) -> (r: &Option<&'tr mut Node>)
        ensures
            *r == self.valop,
    {
        &self.valop
    }

    /// Puts a value in the place of the node, whatever the node held.
    pub fn assign(&mut self, rhs: Node)
        ensures
            final(self)@ == match old(self)@ {
                Some(_) => Some(rhs@),
                None => None,
            },
            old(self).valop is Some ==> *final(final(self).valop->0) == *final(old(self).valop->0),
    {
        match &mut self.valop {
            Some(node) => {
                **node = rhs;
            },
            None => {},
        }
    }

    /// The handle one step further, by a key or, failing that, by a path.
    ///
    /// Where the step leads somewhere, the node left behind will be what it
    /// was with the target replaced by what the new handle leaves; where it
    /// leads nowhere, the node left behind stays as it was.
    pub fn at(self, rhs: &str) -> (r: Self)
        ensures
            r@ == match self@ {
                Some(t) => navigate_step(t, rhs@),
                None => None,
            },
            self.valop is Some ==> final(self.valop->0)@ == match r.valop {
                Some(target) => put_step(self.valop->0@, rhs@, final(target)@),
                None => self.valop->0@,
            },
    {
        match self.valop {
            Some(node) => TomlOptMut { valop: path_mut(node, rhs) },
            None => TomlOptMut { valop: None },
        }
    }

    /// The handle one step further, by an array index.
    pub fn at_index(self, rhs: usize) -> (r: Self)
        ensures
            r@ == match self@ {
                Some(t) => index_child(t, rhs as nat),
                None => None,
            },
            self.valop is Some ==> final(self.valop->0)@ == match r.valop {
                Some(target) => put_index(self.valop->0@, rhs as nat, final(target)@),
                None => self.valop->0@,
            },
    {
        match self.valop {
            Some(node) => TomlOptMut { valop: path_index_mut(node, rhs) },
            None => TomlOptMut { valop: None },
        }
    }

    /// Writes a string into the node, where the node holds a string.
    pub fn set_string(&mut self, rhs: String) -> (r: &mut Self)
        ensures
            r@ == match old(self)@ {
                Some(t) => Some(replace_if_matching(t, Scalar::Str(rhs@))),
                None => None,
            },
            *final(self) == *final(r),
            old(self).valop is Some ==> r.valop is Some,
            old(self).valop is Some ==> *final(r.valop->0) == *final(old(self).valop->0),
    {
        match &mut self.valop {
            Some(node) => {
                replace_string(*node, rhs);
            },
            None => {},
        }
        self
    }

    /// Writes a copy of a string into the node, where the node holds a string.
    pub fn set_str(&mut self, rhs: &str) -> (r: &mut Self)
        ensures
            r@ == match old(self)@ {
                Some(t) => Some(replace_if_matching(t, Scalar::Str(rhs@))),
                None => None,
            },
            *final(self) == *final(r),
            old(self).valop is Some ==> r.valop is Some,
            old(self).valop is Some ==> *final(r.valop->0) == *final(old(self).valop->0),
    {
        match &mut self.valop {
            Some(node) => {
                replace_string(*node, rhs.to_owned());
            },
            None => {},
        }
        self
    }

    /// Writes an integer into the node, where the node holds an integer.
    pub fn set_int(&mut self, rhs: i64) -> (r: &mut Self)
        ensures
            r@ == match old(self)@ {
                Some(t) => Some(replace_if_matching(t, Scalar::Int(rhs))),
                None => None,
            },
            *final(self) == *final(r),
            old(self).valop is Some ==> r.valop is Some,
            old(self).valop is Some ==> *final(r.valop->0) == *final(old(self).valop->0),
    {
        match &mut self.valop {
            Some(node) => {
                replace_int(*node, rhs);
            },
            None => {},
        }
        self
    }

    /// Writes a floating-point number, given by its bit pattern, into the node,
    /// where the node holds such a number.
    pub fn set_float_bits(&mut self, rhs: u64) -> (r: &mut Self)
        ensures
            r@ == match old(self)@ {
                Some(t) => Some(replace_if_matching(t, Scalar::Float(rhs))),
                None => None,
            },
            *final(self) == *final(r),
            old(self).valop is Some ==> r.valop is Some,
            old(self).valop is Some ==> *final(r.valop->0) == *final(old(self).valop->0),
    {
        match &mut self.valop {
            Some(node) => {
                replace_float_bits(*node, rhs);
            },
            None => {},
        }
        self
    }

    /// Writes a boolean into the node, where the node holds a boolean.
    pub fn set_bool(&mut self, rhs: bool) -> (r: &mut Self)
        ensures
            r@ == match old(self)@ {
                Some(t) => Some(replace_if_matching(t, Scalar::Bool(rhs))),
                None => None,
            },
            *final(self) == *final(r),
            old(self).valop is Some ==> r.valop is Some,
            old(self).valop is Some ==> *final(r.valop->0) == *final(old(self).valop->0),
    {
        match &mut self.valop {
            Some(node) => {
                replace_bool(*node, rhs);
            },
            None => {},
        }
        self
    }

    /// Appends one value to the node, where the node is an array.
    pub fn push(&mut self, value: Node) -> (r: &mut Self)
        ensures
            r@ == match old(self)@ {
                Some(t) => Some(append(t, seq![value@])),
                None => None,
            },
            *final(self) == *final(r),
            old(self).valop is Some ==> r.valop is Some,
            old(self).valop is Some ==> *final(r.valop->0) == *final(old(self).valop->0),
    {
        match &mut self.valop {
            Some(node) => {
                push_value(*node, value);
            },
            None => {},
        }
        self
    }

    /// Appends values in order to the node, where the node is an array.
    pub fn extend(&mut self, values: Vec<Node>) -> (r: &mut Self)
        ensures
            r@ == match old(self)@ {
                Some(t) => Some(append(t, node_views(values@))),
                None => None,
            },
            *final(self) == *final(r),
            old(self).valop is Some ==> r.valop is Some,
            old(self).valop is Some ==> *final(r.valop->0) == *final(old(self).valop->0),
    {
        match &mut self.valop {
            Some(node) => {
                push_values(*node, values);
            },
            None => {},
        }
        self
    }

    /// Sets a key of the node to a value, where the node is a table.
    pub fn insert(&mut self, key: &str, value: Node) -> (r: &mut Self)
        ensures
            r@ == match old(self)@ {
                Some(t) => Some(upsert(t, key@, value@)),
                None => None,
            },
            *final(self) == *final(r),
            old(self).valop is Some ==> r.valop is Some,
            old(self).valop is Some ==> *final(r.valop->0) == *final(old(self).valop->0),
    {
        match &mut self.valop {
            Some(node) => {
                upsert_entry(*node, key, value);
            },
            None => {},
        }
        self
    }

    /// Gives up the handle for the string at the node, or for the default where
    /// there is no string.
    pub fn or_string(self, rhs: String) -> (r: String)
        ensures
            Scalar::Str(r@) == extract(self@, Scalar::Str(rhs@)),
            self.valop is Some ==> *final(self.valop->0) == *self.valop->0,
    {
        match self.valop {
            Some(node) => match node {
                Node::Str(s) => s.clone(),
                _ => rhs,
            },
            None => rhs,
        }
    }

    /// Gives up the handle for the integer at the node, or for the default
    /// where there is no integer.
    pub fn or_int(self, rhs: i64) -> (r: i64)
        ensures
            Scalar::Int(r) == extract(self@, Scalar::Int(rhs)),
            self.valop is Some ==> *final(self.valop->0) == *self.valop->0,
    {
        match self.valop {
            Some(node) => match node {
                Node::Int(v) => *v,
                _ => rhs,
            },
            None => rhs,
        }
    }

    /// Gives up the handle for the bit pattern of the floating-point number at
    /// the node, or for the default's where there is no such number.
    pub fn or_float_bits(self, rhs: u64) -> (r: u64)
        ensures
            Scalar::Float(r) == extract(self@, Scalar::Float(rhs)),
            self.valop is Some ==> *final(self.valop->0) == *self.valop->0,
    {
        match self.valop {
            Some(node) => match node {
                Node::Float(bits) => *bits,
                _ => rhs,
            },
            None => rhs,
        }
    }

    /// Gives up the handle for the boolean at the node, or for the default
    /// where there is no boolean.
    pub fn or_bool(self, rhs: bool) -> (r: bool)
        ensures
            Scalar::Bool(r) == extract(self@, Scalar::Bool(rhs)),
            self.valop is Some ==> *final(self.valop->0) == *self.valop->0,
    {
        match self.valop {
            Some(node) => match node {
                Node::Bool(b) => *b,
                _ => rhs,
            },
            None => rhs,
        }
    }
    /// Gives up the handle for the string at the node, borrowed, or for the
    /// default where there is no string.
    pub fn or_str(self, rhs: &'tr str) -> (r: &'tr str)
        ensures
            Scalar::Str(r@) == extract(self@, Scalar::Str(rhs@)),
            self.valop is Some ==> *final(self.valop->0) == *self.valop->0,
    {
        match self.valop {
            Some(node) => match node {
                Node::Str(s) => s.as_str(),
                _ => rhs,
            },
            None => rhs,
        }
    }
}

} // verus!
