//! The AVL tree, in three API-identical variants.
pub mod engine;
pub mod safe;
pub mod raw;
pub mod arena;

use vstd::prelude::*;

use crate::key::TreeKey;

verus! {

/// The operations every variant of this tree kind offers beyond its map operations.
pub trait AvlTreeVariant<'a, K: TreeKey, V>: Sized + 'a {
    /// A view of one node.
    type NodeView: Clone;

    /// The tree is well formed.
    spec fn variant_wf(&self) -> bool;

    /// The tree holds no entry.
    spec fn variant_empty(&self) -> bool;

    /// The root node, if any.
    fn root_view(&'a self) -> (r: Option<Self::NodeView>)
        requires
            self.variant_wf(),
        ensures
            r is None <==> self.variant_empty(),
    ;
}

impl<'a, K: TreeKey + 'a, V: 'a> AvlTreeVariant<'a, K, V> for safe::AvlTree<K, V> {
    type NodeView = safe::AvlNodeView<'a, K, V>;

    open spec fn variant_wf(&self) -> bool {
        self.wf()
    }

    open spec fn variant_empty(&self) -> bool {
        self@.len() == 0
    }

    fn root_view(&'a self) -> (r: Option<Self::NodeView>) {
        safe::AvlTree::root_view(self)
    }
}

impl<'a, K: TreeKey + 'a, V: 'a> AvlTreeVariant<'a, K, V> for raw::AvlTree<K, V> {
    type NodeView = raw::AvlNodeView<'a, K, V>;

    open spec fn variant_wf(&self) -> bool {
        self.wf()
    }

    open spec fn variant_empty(&self) -> bool {
        self@.len() == 0
    }

    fn root_view(&'a self) -> (r: Option<Self::NodeView>) {
        raw::AvlTree::root_view(self)
    }
}

impl<'a, K: TreeKey + 'a, V: 'a> AvlTreeVariant<'a, K, V> for arena::AvlTree<K, V> {
    type NodeView = arena::AvlNodeView<'a, K, V>;

    open spec fn variant_wf(&self) -> bool {
        self.wf()
    }

    open spec fn variant_empty(&self) -> bool {
        self@.len() == 0
    }

    fn root_view(&'a self) -> (r: Option<Self::NodeView>) {
        arena::AvlTree::root_view(self)
    }
}

} // verus!
