//! The red-black tree, in three API-identical variants.
pub mod engine;
pub mod safe;
pub mod raw;
pub mod arena;

use vstd::prelude::*;

use crate::key::TreeKey;

verus! {

/// The operations every variant of this tree kind offers beyond its map operations.
pub trait RedBlackTreeVariant<'a, K: TreeKey, V>: Sized + 'a {
    /// A view of one node.
    type NodeView: Clone;

    /// The tree is well formed.
    spec fn variant_wf(&self) -> bool;

    /// The tree holds no entry.
    spec fn variant_empty(&self) -> bool;

    /// The root node, if any.
    fn root_view(&'a self) -> (r: Option<Self::NodeView>)
        requires
            self.variant_wf(),
        ensures
            r is None <==> self.variant_empty(),
    ;
}

impl<'a, K: TreeKey + 'a, V: 'a> RedBlackTreeVariant<'a, K, V> for safe::RedBlackTree<K, V> {
    type NodeView = safe::RbNodeView<'a, K, V>;

    open spec fn variant_wf(&self) -> bool {
        self.wf()
    }

    open spec fn variant_empty(&self) -> bool {
        self@.len() == 0
    }

    fn root_view(&'a self) -> (r: Option<Self::NodeView>) {
        safe::RedBlackTree::root_view(self)
    }
}

impl<'a, K: TreeKey + 'a, V: 'a> RedBlackTreeVariant<'a, K, V> for raw::RedBlackTree<K, V> {
    type NodeView = raw::RbNodeView<'a, K, V>;

    open spec fn variant_wf(&self) -> bool {
        self.wf()
    }

    open spec fn variant_empty(&self) -> bool {
        self@.len() == 0
    }

    fn root_view(&'a self) -> (r: Option<Self::NodeView>) {
        raw::RedBlackTree::root_view(self)
    }
}

impl<'a, K: TreeKey + 'a, V: 'a> RedBlackTreeVariant<'a, K, V> for arena::RedBlackTree<K, V> {
    type NodeView = arena::RbNodeView<'a, K, V>;

    open spec fn variant_wf(&self) -> bool {
        self.wf()
    }

    open spec fn variant_empty(&self) -> bool {
        self@.len() == 0
    }

    fn root_view(&'a self) -> (r: Option<Self::NodeView>) {
        arena::RedBlackTree::root_view(self)
    }
}

} // verus!
