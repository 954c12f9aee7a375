//! What holds of paths, reads and writes whatever the tree.

use vstd::prelude::*;
use crate::read::{
    extract, lemma_walk_none, navigate_path, navigate_step, resolve_segment, walk,
};
use crate::segment::{
    all_digits, digits_value, is_index_segment, is_separator, lemma_split_path_shape,
    lemma_split_plain, split_path,
};
use crate::tree::{
    find_key, index_child, key_child, keys_unique, lemma_find_key, lemma_find_key_first,
    lemma_find_key_none, Scalar, Tree,
};
use crate::write::{
    append, lemma_put_segment_same, put_index, put_key, put_path, put_segment, put_step,
    replace_if_matching, upsert,
};

verus! {

/// Reading a leaf against a default of the leaf's own kind gives the leaf's
/// value, never the default.
pub proof fn lemma_extract_present(root: Tree, path: Seq<char>, value: Scalar, default: Scalar)
    requires
        navigate_path(root, path) == Some(value.tree()),
        value.kind() == default.kind(),
    ensures
        extract(navigate_path(root, path), default) == value,
{
}

/// Reading where the path leads nowhere gives the default.
pub proof fn lemma_extract_absent(root: Tree, path: Seq<char>, default: Scalar)
    requires
        navigate_path(root, path) is None,
    ensures
        extract(navigate_path(root, path), default) == default,
{
}

/// Reading a node that holds no scalar of the default's kind gives the
/// default: a value of another kind is never converted.
pub proof fn lemma_extract_mismatch(root: Tree, path: Seq<char>, node: Tree, default: Scalar)
    requires
        navigate_path(root, path) == Some(node),
        node.scalar() is None || node.scalar()->0.kind() != default.kind(),
    ensures
        extract(navigate_path(root, path), default) == default,
{
}

/// Two paths that differ only in which separator stands where have the same
/// segments.
pub proof fn lemma_split_separator_blind(p: Seq<char>, q: Seq<char>)
    requires
        p.len() == q.len(),
        forall|i: int|
            0 <= i < p.len() ==> p[i] == q[i] || (is_separator(#[trigger] p[i]) && is_separator(
                q[i],
            )),
    ensures
        split_path(p) == split_path(q),
    decreases p.len(),
{
    if p.len() > 0 {
        assert(p[p.len() - 1] == q[p.len() - 1] || (is_separator(p[p.len() - 1]) && is_separator(
            q[p.len() - 1],
        )));
        assert forall|i: int| 0 <= i < p.drop_last().len() implies p.drop_last()[i]
            == q.drop_last()[i] || (is_separator(#[trigger] p.drop_last()[i]) && is_separator(
            q.drop_last()[i],
        )) by {
            assert(p[i] == q[i] || (is_separator(p[i]) && is_separator(q[i])));
        }
        lemma_split_separator_blind(p.drop_last(), q.drop_last());
    }
}

/// Two paths that differ only in which separator stands where lead to the
/// same node.
pub proof fn lemma_navigate_separator_blind(root: Tree, p: Seq<char>, q: Seq<char>)
    requires
        p.len() == q.len(),
        forall|i: int|
            0 <= i < p.len() ==> p[i] == q[i] || (is_separator(#[trigger] p[i]) && is_separator(
                q[i],
            )),
    ensures
        navigate_path(root, p) == navigate_path(root, q),
{
    lemma_split_separator_blind(p, q);
}

/// Joining two paths with a separator joins their segments.
pub proof fn lemma_split_concat(a: Seq<char>, separator: char, b: Seq<char>)
    requires
        is_separator(separator),
    ensures
        split_path(a.push(separator) + b) == split_path(a) + split_path(b),
    decreases b.len(),
{
    let whole = a.push(separator) + b;
    if b.len() == 0 {
        assert(whole.drop_last() =~= a);
        assert(split_path(a) + split_path(b) =~= split_path(a).push(Seq::empty()));
    } else {
        let shorter = b.drop_last();
        assert(whole.drop_last() =~= a.push(separator) + shorter);
        assert(whole.last() == b.last());
        lemma_split_concat(a, separator, shorter);
        lemma_split_path_shape(shorter);
        let tail = split_path(shorter);
        let head = split_path(a) + tail;
        if is_separator(b.last()) {
            assert(head.push(Seq::empty()) =~= split_path(a) + tail.push(Seq::empty()));
        } else {
            assert(head.last() == tail.last());
            assert(head.update(head.len() - 1, head.last().push(b.last())) =~= split_path(a)
                + tail.update(tail.len() - 1, tail.last().push(b.last())));
        }
    }
}

/// Following one run of segments and then another is following the two runs
/// joined.
pub proof fn lemma_walk_concat(t: Option<Tree>, a: Seq<Seq<char>>, b: Seq<Seq<char>>)
    ensures
        walk(t, a + b) == walk(walk(t, a), b),
    decreases a.len(),
{
    if a.len() == 0 {
        assert(a + b =~= b);
    } else {
        assert((a + b)[0] == a[0]);
        assert((a + b).drop_first() =~= a.drop_first() + b);
        match t {
            Some(node) => {
                lemma_walk_concat(resolve_segment(node, a[0]), a.drop_first(), b);
            },
            None => {
                lemma_walk_none(b);
            },
        }
    }
}

/// Navigation composes: a path, a separator and a second path lead where the
/// second path leads from the node that the first one reaches.
pub proof fn lemma_navigate_chain(root: Tree, first: Seq<char>, separator: char, second: Seq<char>)
    requires
        is_separator(separator),
    ensures
        navigate_path(root, first.push(separator) + second) == match navigate_path(root, first) {
            Some(node) => navigate_path(node, second),
            None => None,
        },
{
    lemma_split_concat(first, separator, second);
    lemma_walk_concat(Some(root), split_path(first), split_path(second));
    lemma_walk_none(split_path(second));
}

/// An empty segment is a step that stays in place: a run of segments leads to
/// the same node with or without one.
pub proof fn lemma_walk_skips_empty(t: Option<Tree>, a: Seq<Seq<char>>, b: Seq<Seq<char>>)
    ensures
        walk(t, a.push(Seq::empty()) + b) == walk(t, a + b),
{
    let stay: Seq<Seq<char>> = seq![Seq::empty()];
    assert(a.push(Seq::empty()) =~= a + stay);
    lemma_walk_concat(t, a + stay, b);
    lemma_walk_concat(t, a, stay);
    lemma_walk_concat(t, a, b);
    let reached = walk(t, a);
    assert(stay.drop_first().len() == 0);
    assert(walk(reached, stay) == reached) by {
        match reached {
            Some(node) => {
                assert(resolve_segment(node, stay[0]) == Some(node));
                assert(walk(Some(node), stay.drop_first()) == Some(node));
            },
            None => {},
        }
    }
}

/// A separator in front of a path, behind it, or doubled inside it, does not
/// change where the path leads.
pub proof fn lemma_navigate_extra_separator(
    root: Tree,
    first: Seq<char>,
    separator: char,
    second: Seq<char>,
)
    requires
        is_separator(separator),
    ensures
        navigate_path(root, separator_in_front(separator, first)) == navigate_path(root, first),
        navigate_path(root, first.push(separator)) == navigate_path(root, first),
        navigate_path(root, first.push(separator).push(separator) + second) == navigate_path(
            root,
            first.push(separator) + second,
        ),
{
    let none: Seq<char> = Seq::empty();
    let stay: Seq<Seq<char>> = seq![Seq::empty()];
    let no_segments: Seq<Seq<char>> = Seq::empty();
    // in front
    lemma_split_concat(none, separator, first);
    assert(none.push(separator) + first =~= separator_in_front(separator, first));
    assert(split_path(none) =~= no_segments.push(Seq::empty()));
    lemma_walk_skips_empty(Some(root), no_segments, split_path(first));
    assert(no_segments + split_path(first) =~= split_path(first));
    // behind
    lemma_split_concat(first, separator, none);
    assert(first.push(separator) + none =~= first.push(separator));
    assert(split_path(first) + split_path(none) =~= split_path(first).push(Seq::empty())
        + no_segments);
    lemma_walk_skips_empty(Some(root), split_path(first), no_segments);
    assert(split_path(first) + no_segments =~= split_path(first));
    // doubled
    lemma_split_concat(first.push(separator), separator, second);
    lemma_split_concat(first, separator, second);
    assert(split_path(first.push(separator)) =~= split_path(first).push(Seq::empty()));
    lemma_walk_skips_empty(Some(root), split_path(first), split_path(second));
}

/// A path with one separator put in front of it.
pub open spec fn separator_in_front(separator: char, path: Seq<char>) -> Seq<char> {
    seq![separator] + path
}

/// A segment of digits that names a position at or past the end of an array
/// resolves to nothing, and writing through it leaves the array as it is.
pub proof fn lemma_index_out_of_range(items: Seq<Tree>, segment: Seq<char>, new: Tree)
    requires
        is_index_segment(segment),
        digits_value(segment) >= items.len(),
    ensures
        resolve_segment(Tree::Array(items), segment) is None,
        put_segment(Tree::Array(items), segment, new) == Tree::Array(items),
        put_path(Tree::Array(items), seq![segment], new) == Tree::Array(items),
{
}

/// What was written through one segment is what that segment then resolves to.
pub proof fn lemma_resolve_after_put(t: Tree, segment: Seq<char>, new: Tree)
    requires
        resolve_segment(t, segment) is Some,
    ensures
        resolve_segment(put_segment(t, segment, new), segment) == Some(new),
{
    if segment.len() > 0 && !all_digits(segment) {
        let entries = t->Table_0;
        lemma_find_key(entries, segment);
        let j = find_key(entries, segment)->0;
        let updated = entries.update(j, (entries[j].0, new));
        lemma_find_key_first(updated, segment, j);
    }
}

/// What was written at the end of a path is what the path then leads to.
pub proof fn lemma_walk_after_put(t: Tree, segments: Seq<Seq<char>>, new: Tree)
    requires
        walk(Some(t), segments) is Some,
    ensures
        walk(Some(put_path(t, segments, new)), segments) == Some(new),
    decreases segments.len(),
{
    if segments.len() > 0 {
        match resolve_segment(t, segments[0]) {
            Some(child) => {
                let rest = segments.drop_first();
                lemma_walk_after_put(child, rest, new);
                lemma_resolve_after_put(t, segments[0], put_path(child, rest, new));
            },
            None => {
                lemma_walk_none(segments.drop_first());
            },
        }
    }
}

/// Writing a scalar of the node's own kind at the end of a path and reading
/// the path again gives that scalar; writing one of another kind changes
/// nothing.
pub proof fn lemma_replace_round_trip(root: Tree, path: Seq<char>, held: Tree, value: Scalar)
    requires
        navigate_path(root, path) == Some(held),
    ensures
        held.scalar() is Some && held.scalar()->0.kind() == value.kind() ==> navigate_path(
            put_path(root, split_path(path), replace_if_matching(held, value)),
            path,
        ) == Some(value.tree()),
        held.scalar() is None || held.scalar()->0.kind() != value.kind() ==> replace_if_matching(
            held,
            value,
        ) == held,
        navigate_path(
            put_path(root, split_path(path), replace_if_matching(held, value)),
            path,
        ) == Some(replace_if_matching(held, value)),
{
    lemma_walk_after_put(root, split_path(path), replace_if_matching(held, value));
}

/// A write that keeps the kind keeps the kind: whatever scalar is offered, the
/// node holds a scalar of the kind it held, or is what it was.
pub proof fn lemma_replace_keeps_kind(held: Tree, value: Scalar)
    ensures
        match held.scalar() {
            Some(s) => replace_if_matching(held, value).scalar() is Some && replace_if_matching(
                held,
                value,
            ).scalar()->0.kind() == s.kind(),
            None => replace_if_matching(held, value) == held,
        },
{
}

/// Writing under one key of a table leaves what stands under every other key.
pub proof fn lemma_put_key_keeps_siblings(t: Tree, key: Seq<char>, new: Tree, other: Seq<char>)
    requires
        other != key,
    ensures
        key_child(put_key(t, key, new), other) == key_child(t, other),
{
    if let Tree::Table(entries) = t {
        lemma_find_key(entries, key);
        if let Some(j) = find_key(entries, key) {
            let updated = entries.update(j, (entries[j].0, new));
            lemma_same_keys_same_place(entries, updated, other);
            lemma_find_key(entries, other);
            if let Some(m) = find_key(entries, other) {
                assert(updated[m] == entries[m]);
            }
        }
    }
}

/// Writing at one index of an array leaves every other element.
pub proof fn lemma_put_index_keeps_siblings(t: Tree, i: nat, new: Tree, other: nat)
    requires
        other != i,
    ensures
        index_child(put_index(t, i, new), other) == index_child(t, other),
{
}

/// Two entry sequences with the same keys in the same places answer a key
/// lookup with the same position.
pub proof fn lemma_same_keys_same_place(
    a: Seq<(Seq<char>, Tree)>,
    b: Seq<(Seq<char>, Tree)>,
    key: Seq<char>,
)
    requires
        a.len() == b.len(),
        forall|k: int| 0 <= k < a.len() ==> (#[trigger] a[k]).0 == b[k].0,
    ensures
        find_key(a, key) == find_key(b, key),
{
    lemma_find_key(a, key);
    match find_key(a, key) {
        Some(j) => {
            assert(a[j].0 == b[j].0);
            assert forall|k: int| 0 <= k < j implies (#[trigger] b[k]).0 != key by {
                assert(a[k].0 == b[k].0);
            }
            lemma_find_key_first(b, key, j);
        },
        None => {
            assert forall|k: int| 0 <= k < b.len() implies (#[trigger] b[k]).0 != key by {
                assert(a[k].0 == b[k].0);
            }
            lemma_find_key_none(b, key);
        },
    }
}

/// After a key of a table is set, the key leads to the value that was given.
pub proof fn lemma_upsert_reads_back(t: Tree, key: Seq<char>, value: Tree)
    requires
        t is Table,
    ensures
        key_child(upsert(t, key, value), key) == Some(value),
{
    let entries = t->Table_0;
    lemma_find_key(entries, key);
    match find_key(entries, key) {
        Some(j) => {
            lemma_find_key_first(entries.update(j, (key, value)), key, j);
        },
        None => {
            lemma_find_key_first(entries.push((key, value)), key, entries.len() as int);
        },
    }
}

/// Setting a key of a table leaves what stands under every other key.
pub proof fn lemma_upsert_keeps_siblings(t: Tree, key: Seq<char>, value: Tree, other: Seq<char>)
    requires
        other != key,
    ensures
        key_child(upsert(t, key, value), other) == key_child(t, other),
{
    if let Tree::Table(entries) = t {
        lemma_find_key(entries, key);
        lemma_find_key(entries, other);
        let after = upsert(t, key, value)->Table_0;
        match find_key(entries, other) {
            Some(m) => {
                assert(after[m] == entries[m]);
                assert forall|k: int| 0 <= k < m implies (#[trigger] after[k]).0 != other by {
                    if after[k] != entries[k] {
                    } else {
                        assert(entries[k].0 != other);
                    }
                }
                lemma_find_key_first(after, other, m);
            },
            None => {
                assert forall|k: int| 0 <= k < after.len() implies (#[trigger] after[k]).0
                    != other by {
                    if k < entries.len() && after[k] == entries[k] {
                        assert(entries[k].0 != other);
                    }
                }
                lemma_find_key_none(after, other);
            },
        }
    }
}

/// Appending to an array keeps what was there, in place, and puts the new
/// values behind it in their order.
pub proof fn lemma_append_order(items: Seq<Tree>, values: Seq<Tree>)
    ensures
        append(Tree::Array(items), values) == Tree::Array(items + values),
        forall|i: int|
            0 <= i < items.len() ==> index_child(
                append(Tree::Array(items), values),
                i as nat,
            ) == Some(#[trigger] items[i]),
        forall|i: int|
            0 <= i < values.len() ==> index_child(
                append(Tree::Array(items), values),
                (items.len() + i) as nat,
            ) == Some(#[trigger] values[i]),
{
}

/// What was written under a key of a table is what the key then leads to,
/// also through a step by that key.
pub proof fn lemma_put_key_reads_back(t: Tree, key: Seq<char>, new: Tree)
    requires
        key_child(t, key) is Some,
    ensures
        key_child(put_key(t, key, new), key) == Some(new),
        navigate_step(put_step(t, key, new), key) == Some(new),
{
    let entries = t->Table_0;
    lemma_find_key(entries, key);
    let j = find_key(entries, key)->0;
    lemma_find_key_first(entries.update(j, (entries[j].0, new)), key, j);
}

/// What was written at an index of an array is what the index then leads to.
pub proof fn lemma_put_index_reads_back(t: Tree, i: nat, new: Tree)
    requires
        index_child(t, i) is Some,
    ensures
        index_child(put_index(t, i, new), i) == Some(new),
{
}

/// Putting back what stands under a key, or at an index, changes nothing.
pub proof fn lemma_put_child_same(t: Tree, key: Seq<char>, i: nat)
    ensures
        key_child(t, key) is Some ==> put_key(t, key, key_child(t, key)->0) == t,
        index_child(t, i) is Some ==> put_index(t, i, index_child(t, i)->0) == t,
{
    match t {
        Tree::Array(items) => {
            if i < items.len() {
                assert(items.update(i as int, items[i as int]) =~= items);
            }
        },
        Tree::Table(entries) => {
            lemma_find_key(entries, key);
            if let Some(j) = find_key(entries, key) {
                assert(entries.update(j, (entries[j].0, entries[j].1)) =~= entries);
            }
        },
        _ => {},
    }
}

/// Putting back the node that a path leads to changes nothing: a handle that
/// is only read through leaves the tree as it was.
pub proof fn lemma_put_path_same(t: Tree, segments: Seq<Seq<char>>)
    ensures
        walk(Some(t), segments) is Some ==> put_path(t, segments, walk(Some(t), segments)->0)
            == t,
    decreases segments.len(),
{
    if segments.len() > 0 {
        match resolve_segment(t, segments[0]) {
            Some(child) => {
                lemma_put_path_same(child, segments.drop_first());
                lemma_put_segment_same(t, segments[0]);
            },
            None => {
                lemma_walk_none(segments.drop_first());
            },
        }
    }
}

/// Putting back the node that one step by a string leads to changes nothing.
pub proof fn lemma_put_step_same(t: Tree, step: Seq<char>)
    ensures
        navigate_step(t, step) is Some ==> put_step(t, step, navigate_step(t, step)->0) == t,
{
    lemma_put_child_same(t, step, 0);
    lemma_put_path_same(t, split_path(step));
}

/// Writing at the end of a path brings no key to the root that neither the
/// root nor the written node had.
pub proof fn lemma_put_path_brings_no_key(
    t: Tree,
    segments: Seq<Seq<char>>,
    new: Tree,
    key: Seq<char>,
)
    requires
        key_child(t, key) is None,
        key_child(new, key) is None,
    ensures
        key_child(put_path(t, segments, new), key) is None,
    decreases segments.len(),
{
    if segments.len() > 0 {
        let segment = segments[0];
        let rest = segments.drop_first();
        match resolve_segment(t, segment) {
            Some(child) => {
                let below = put_path(child, rest, new);
                if segment.len() == 0 {
                    lemma_put_path_brings_no_key(t, rest, new, key);
                } else if !all_digits(segment) {
                    let entries = t->Table_0;
                    lemma_find_key(entries, segment);
                    let j = find_key(entries, segment)->0;
                    lemma_same_keys_same_place(
                        entries,
                        entries.update(j, (entries[j].0, below)),
                        key,
                    );
                }
            },
            None => {},
        }
    }
}

/// What was written through one step by a string is what that step then leads
/// to, unless the step was taken as a path and the written node itself holds
/// the whole string as a key.
pub proof fn lemma_step_round_trip(t: Tree, step: Seq<char>, new: Tree)
    requires
        navigate_step(t, step) is Some,
        key_child(t, step) is Some || key_child(new, step) is None,
    ensures
        navigate_step(put_step(t, step, new), step) == Some(new),
{
    if key_child(t, step) is Some {
        lemma_put_key_reads_back(t, step, new);
    } else {
        lemma_put_path_brings_no_key(t, split_path(step), new, step);
        lemma_walk_after_put(t, split_path(step), new);
    }
}

/// In a table that holds each key once, a key leads to the one entry that
/// holds it.
pub proof fn lemma_unique_key_lookup(entries: Seq<(Seq<char>, Tree)>, j: int)
    requires
        keys_unique(entries),
        0 <= j < entries.len(),
    ensures
        find_key(entries, entries[j].0) == Some(j),
        key_child(Tree::Table(entries), entries[j].0) == Some(entries[j].1),
{
    lemma_find_key_first(entries, entries[j].0, j);
}

/// What one segment resolves to in a well-formed tree is well-formed.
pub proof fn lemma_resolve_well_formed(t: Tree, segment: Seq<char>)
    requires
        t.well_formed(),
    ensures
        resolve_segment(t, segment) is Some ==> resolve_segment(t, segment)->0.well_formed(),
{
    if let Tree::Table(entries) = t {
        lemma_find_key(entries, segment);
    }
}

/// What a path leads to in a well-formed tree is well-formed.
pub proof fn lemma_walk_well_formed(t: Tree, segments: Seq<Seq<char>>)
    requires
        t.well_formed(),
    ensures
        walk(Some(t), segments) is Some ==> walk(Some(t), segments)->0.well_formed(),
    decreases segments.len(),
{
    if segments.len() > 0 {
        lemma_resolve_well_formed(t, segments[0]);
        match resolve_segment(t, segments[0]) {
            Some(child) => {
                lemma_walk_well_formed(child, segments.drop_first());
            },
            None => {
                lemma_walk_none(segments.drop_first());
            },
        }
    }
}

/// Replacing a child of a well-formed tree by a well-formed node gives a
/// well-formed tree.
pub proof fn lemma_put_segment_well_formed(t: Tree, segment: Seq<char>, child: Tree)
    requires
        t.well_formed(),
        child.well_formed(),
    ensures
        put_key(t, segment, child).well_formed(),
        put_index(t, digits_value(segment), child).well_formed(),
        put_segment(t, segment, child).well_formed(),
{
    match t {
        Tree::Table(entries) => {
            lemma_find_key(entries, segment);
            if let Some(j) = find_key(entries, segment) {
                let updated = entries.update(j, (entries[j].0, child));
                assert forall|i: int| 0 <= i < updated.len() implies (#[trigger] updated[i]).1.well_formed() by {
                    if i != j {
                        assert(entries[i].1.well_formed());
                    }
                }
                assert(keys_unique(updated));
            }
        },
        Tree::Array(items) => {
            let i = digits_value(segment);
            if i < items.len() {
                let updated = items.update(i as int, child);
                assert forall|k: int| 0 <= k < updated.len() implies (#[trigger] updated[k]).well_formed() by {
                    if k != i {
                        assert(items[k].well_formed());
                    }
                }
            }
        },
        _ => {},
    }
}

/// Writing a well-formed node at the end of a path of a well-formed tree
/// gives a well-formed tree.
pub proof fn lemma_put_path_well_formed(t: Tree, segments: Seq<Seq<char>>, new: Tree)
    requires
        t.well_formed(),
        new.well_formed(),
    ensures
        put_path(t, segments, new).well_formed(),
    decreases segments.len(),
{
    if segments.len() > 0 {
        lemma_resolve_well_formed(t, segments[0]);
        match resolve_segment(t, segments[0]) {
            Some(child) => {
                lemma_put_path_well_formed(child, segments.drop_first(), new);
                lemma_put_segment_well_formed(
                    t,
                    segments[0],
                    put_path(child, segments.drop_first(), new),
                );
            },
            None => {},
        }
    }
}

/// Every write on a well-formed node, with well-formed values, gives a
/// well-formed node; setting a key in particular never makes a key stand
/// twice.
pub proof fn lemma_writes_keep_well_formed(
    t: Tree,
    scalar: Scalar,
    values: Seq<Tree>,
    key: Seq<char>,
    value: Tree,
)
    requires
        t.well_formed(),
        value.well_formed(),
        forall|i: int| 0 <= i < values.len() ==> (#[trigger] values[i]).well_formed(),
    ensures
        replace_if_matching(t, scalar).well_formed(),
        append(t, values).well_formed(),
        upsert(t, key, value).well_formed(),
{
    match t {
        Tree::Array(items) => {
            let all = items + values;
            assert forall|i: int| 0 <= i < all.len() implies (#[trigger] all[i]).well_formed() by {
                if i < items.len() {
                    assert(items[i].well_formed());
                } else {
                    assert(values[i - items.len()].well_formed());
                }
            }
        },
        Tree::Table(entries) => {
            lemma_find_key(entries, key);
            let after = upsert(t, key, value)->Table_0;
            assert forall|i: int| 0 <= i < after.len() implies (#[trigger] after[i]).1.well_formed() by {
                if i < entries.len() && after[i] == entries[i] {
                    assert(entries[i].1.well_formed());
                }
            }
            assert forall|i: int, j: int| 0 <= i < j < after.len() implies after[i].0
                != after[j].0 by {
                if j < entries.len() {
                    assert(entries[i].0 != entries[j].0);
                } else {
                    assert(entries[i].0 != key);
                }
            }
        },
        _ => {},
    }
}

/// Whether a text can stand as a key in a textual path: it is not empty, holds
/// no separator, and is not made of digits alone.
pub open spec fn is_plain_key(key: Seq<char>) -> bool {
    key.len() > 0 && !all_digits(key) && forall|i: int|
        0 <= i < key.len() ==> !is_separator(#[trigger] key[i])
}

/// One step by a string without separators is a lookup of that string as a
/// key, and nothing else.
pub proof fn lemma_step_without_separator(t: Tree, step: Seq<char>)
    requires
        forall|i: int| 0 <= i < step.len() ==> !is_separator(#[trigger] step[i]),
    ensures
        split_path(step) == seq![step],
        navigate_step(t, step) == key_child(t, step),
{
    lemma_split_plain(step);
}

/// One step by a plain key leads where the key leads as a path.
pub proof fn lemma_step_is_path(t: Tree, key: Seq<char>)
    requires
        is_plain_key(key),
    ensures
        navigate_step(t, key) == navigate_path(t, key),
{
    lemma_split_plain(key);
    let segments = split_path(key);
    assert(segments.drop_first().len() == 0);
    assert(walk(Some(t), segments) == walk(resolve_segment(t, key), segments.drop_first()));
}

/// Steps compose: two steps by plain keys lead where one step by the two keys
/// joined with a separator leads, unless the node holds the joined text itself
/// as a key.
pub proof fn lemma_steps_compose(root: Tree, first: Seq<char>, separator: char, second: Seq<char>)
    requires
        is_plain_key(first),
        is_plain_key(second),
        is_separator(separator),
        key_child(root, first.push(separator) + second) is None,
    ensures
        navigate_step(root, first.push(separator) + second) == match navigate_step(root, first) {
            Some(node) => navigate_step(node, second),
            None => None,
        },
{
    let joined = first.push(separator) + second;
    lemma_navigate_chain(root, first, separator, second);
    lemma_split_concat(first, separator, second);
    lemma_split_plain(first);
    lemma_split_plain(second);
    assert(split_path(joined).len() == 2);
    lemma_step_is_path(root, first);
    match navigate_step(root, first) {
        Some(node) => {
            lemma_step_is_path(node, second);
        },
        None => {},
    }
}

/// The order of a table's entries does not matter to a lookup: two tables that
/// hold each key once, and the same entries in any order, answer every key
/// alike.
pub proof fn lemma_entry_order_irrelevant(
    a: Seq<(Seq<char>, Tree)>,
    b: Seq<(Seq<char>, Tree)>,
    key: Seq<char>,
)
    requires
        keys_unique(a),
        keys_unique(b),
        forall|i: int| 0 <= i < a.len() ==> b.contains(#[trigger] a[i]),
        forall|j: int| 0 <= j < b.len() ==> a.contains(#[trigger] b[j]),
    ensures
        key_child(Tree::Table(a), key) == key_child(Tree::Table(b), key),
{
    lemma_find_key(a, key);
    lemma_find_key(b, key);
    match find_key(a, key) {
        Some(i) => {
            assert(b.contains(a[i]));
            let j = choose|j: int| 0 <= j < b.len() && b[j] == a[i];
            lemma_unique_key_lookup(b, j);
        },
        None => {
            if let Some(j) = find_key(b, key) {
                assert(a.contains(b[j]));
                let i = choose|i: int| 0 <= i < a.len() && a[i] == b[j];
                assert(a[i].0 == key);
            }
        },
    }
}

} // verus!
