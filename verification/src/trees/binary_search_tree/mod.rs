//! The unbalanced binary search tree, in two API-identical variants.
pub mod engine;
pub mod safe;
pub mod raw;

use vstd::prelude::*;

use crate::key::TreeKey;

verus! {

/// The operations every variant of this tree kind offers beyond its map operations.
pub trait BinarySearchTreeVariant<'a, K: TreeKey, V>: Sized + 'a {
    /// A view of one node.
    type NodeView: Clone;

    /// The tree is well formed.
    spec fn variant_wf(&self) -> bool;

    /// The tree holds no entry.
    spec fn variant_empty(&self) -> bool;

    /// The root node, if any.
    fn root_view(&'a self) -> (r: Option<Self::NodeView>)
        requires
            self.variant_wf(),
        ensures
            r is None <==> self.variant_empty(),
    ;
}

impl<'a, K: TreeKey + 'a, V: 'a> BinarySearchTreeVariant<'a, K, V> for safe::BinarySearchTree<K, V> {
    type NodeView = safe::BstNodeView<'a, K, V>;

    open spec fn variant_wf(&self) -> bool {
        self.wf()
    }

    open spec fn variant_empty(&self) -> bool {
        self@.len() == 0
    }

    fn root_view(&'a self) -> (r: Option<Self::NodeView>) {
        safe::BinarySearchTree::root_view(self)
    }
}

impl<'a, K: TreeKey + 'a, V: 'a> BinarySearchTreeVariant<'a, K, V> for raw::BinarySearchTree<K, V> {
    type NodeView = raw::BstNodeView<'a, K, V>;

    open spec fn variant_wf(&self) -> bool {
        self.wf()
    }

    open spec fn variant_empty(&self) -> bool {
        self@.len() == 0
    }

    fn root_view(&'a self) -> (r: Option<Self::NodeView>) {
        raw::BinarySearchTree::root_view(self)
    }
}

} // verus!
