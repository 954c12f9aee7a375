//! The entry points on a tree: handles on its root, and on the node at a path.

use vstd::prelude::*;
use crate::read::{navigate_path, TomlOpt};
use crate::segment::{build_path, split_path};
use crate::tree::{Node, Tree};
use crate::write::{put_path, TomlOptMut};

verus! {

/// Handles on a tree, for reading and for writing.
pub trait PathOperator {
    /// The tree that the handles are on.
    spec fn tree(&self) -> Tree;

    /// A read-only handle on the root.
    fn path<'tr>(&'tr self) -> (r: TomlOpt<'tr>)
        ensures
            r@ == Some(self.tree()),
    ;

    /// A read-only handle on the node at a textual path.
    fn pathto<'tr>(&'tr self, p: &str) -> (r: TomlOpt<'tr>)
        ensures
            r@ == navigate_path(self.tree(), p@),
    ;

    /// An exclusive handle on the root: what the handle leaves is what the
    /// tree will be.
    fn path_mut<'tr>(&'tr mut self) -> (r: TomlOptMut<'tr>)
        ensures
            r@ == Some(old(self).tree()),
            r.valop is Some,
            final(self).tree() == final(r.valop->0)@,
    ;

    /// An exclusive handle on the node at a textual path: the tree will be
    /// what it was with that node replaced by what the handle leaves, and
    /// what it was where the path leads nowhere.
    fn pathto_mut<'tr>(&'tr mut self, p: &str) -> (r: TomlOptMut<'tr>)
        ensures
            r@ == navigate_path(old(self).tree(), p@),
            final(self).tree() == match r.valop {
                Some(target) => put_path(old(self).tree(), split_path(p@), final(target)@),
                None => old(self).tree(),
            },
    ;
}

impl PathOperator for Node {
    open spec fn tree(&self) -> Tree {
        self@
    }

    fn path<'tr>(&'tr self) -> (r: TomlOpt<'tr>) {
        TomlOpt::path(self)
    }

    fn pathto<'tr>(&'tr self, p: &str) -> (r: TomlOpt<'tr>) {
        let valop = build_path(p).apply(self);
        TomlOpt { valop }
    }

    fn path_mut<'tr>(&'tr mut self) -> (r: TomlOptMut<'tr>) {
        TomlOptMut::path(self)
    }

    fn pathto_mut<'tr>(&'tr mut self, p: &str) -> (r: TomlOptMut<'tr>) {
        let valop = build_path(p).apply_mut(self);
        TomlOptMut { valop }
    }
}

} // verus!
