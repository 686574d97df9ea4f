//! The B-tree, in three API-identical variants.
pub mod arena;
pub mod base;
pub mod engine;
pub mod insert;
pub mod layout;
pub mod raw;
pub mod remove;
pub mod safe;
pub mod search;
pub mod sorted;

use vstd::prelude::*;

use crate::key::TreeKey;

verus! {

/// The operations every variant of the B-tree offers beyond its map operations.
pub trait BTreeVariant<'a, K: TreeKey, V>: Sized + 'a {
    /// A view of one node.
    type NodeView: Clone;

    /// A position at one entry.
    type Cursor;

    /// The tree is well formed.
    spec fn variant_wf(&self) -> bool;

    /// The tree holds no entry.
    spec fn variant_empty(&self) -> bool;

    /// The minimum degree.
    spec fn variant_degree(&self) -> usize;

    /// The cursor is a valid position.
    spec fn cursor_wf(c: &Self::Cursor) -> bool;

    /// The minimum degree.
    fn degree(&self) -> (r: usize)
        ensures
            r == self.variant_degree(),
    ;

    /// The root node, if any.
    fn root_view(&'a self) -> (r: Option<Self::NodeView>)
        requires
            self.variant_wf(),
        ensures
            r is None <==> self.variant_empty(),
    ;

    /// The node of a cursor.
    fn view_from_cursor(&'a self, cursor: &Self::Cursor) -> (r: Self::NodeView)
        requires
            Self::cursor_wf(cursor),
    ;
}

impl<'a, K: TreeKey + 'a, V: 'a, const T: usize> BTreeVariant<'a, K, V> for safe::BTree<K, V, T> {
    type NodeView = safe::BTreeNodeView<'a, K, V>;

    type Cursor = safe::BTreeCursor<'a, K, V>;

    open spec fn variant_wf(&self) -> bool {
        self.wf()
    }

    open spec fn variant_empty(&self) -> bool {
        self@.len() == 0
    }

    open spec fn variant_degree(&self) -> usize {
        T
    }

    open spec fn cursor_wf(c: &Self::Cursor) -> bool {
        c.wf()
    }

    fn degree(&self) -> (r: usize) {
        safe::BTree::degree(self)
    }

    fn root_view(&'a self) -> (r: Option<Self::NodeView>) {
        safe::BTree::root_view(self)
    }

    fn view_from_cursor(&'a self, cursor: &Self::Cursor) -> (r: Self::NodeView) {
        cursor.node_view()
    }
}

impl<'a, K: TreeKey + 'a, V: 'a, const T: usize> BTreeVariant<'a, K, V> for raw::BTree<K, V, T> {
    type NodeView = raw::BTreeNodeView<'a, K, V>;

    type Cursor = raw::BTreeCursor<'a, K, V>;

    open spec fn variant_wf(&self) -> bool {
        self.wf()
    }

    open spec fn variant_empty(&self) -> bool {
        self@.len() == 0
    }

    open spec fn variant_degree(&self) -> usize {
        T
    }

    open spec fn cursor_wf(c: &Self::Cursor) -> bool {
        c.wf()
    }

    fn degree(&self) -> (r: usize) {
        raw::BTree::degree(self)
    }

    fn root_view(&'a self) -> (r: Option<Self::NodeView>) {
        raw::BTree::root_view(self)
    }

    fn view_from_cursor(&'a self, cursor: &Self::Cursor) -> (r: Self::NodeView) {
        cursor.node_view()
    }
}

impl<'a, K: TreeKey + 'a, V: 'a, const T: usize> BTreeVariant<'a, K, V> for arena::BTree<K, V, T> {
    type NodeView = arena::BTreeNodeView<'a, K, V>;

    type Cursor = arena::BTreeCursor<'a, K, V>;

    open spec fn variant_wf(&self) -> bool {
        self.wf()
    }

    open spec fn variant_empty(&self) -> bool {
        self@.len() == 0
    }

    open spec fn variant_degree(&self) -> usize {
        T
    }

    open spec fn cursor_wf(c: &Self::Cursor) -> bool {
        c.wf()
    }

    fn degree(&self) -> (r: usize) {
        arena::BTree::degree(self)
    }

    fn root_view(&'a self) -> (r: Option<Self::NodeView>) {
        arena::BTree::root_view(self)
    }

    fn view_from_cursor(&'a self, cursor: &Self::Cursor) -> (r: Self::NodeView) {
        cursor.node_view()
    }
}

} // verus!
