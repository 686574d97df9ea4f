//! The splay tree, in three API-identical variants.
pub mod engine;
pub mod safe;
pub mod raw;
pub mod arena;

use vstd::prelude::*;

use crate::key::TreeKey;

verus! {

/// The operations every variant of this tree kind offers beyond its map operations.
pub trait SplayTreeVariant<'a, K: TreeKey, V>: Sized + 'a {
    /// A view of one node.
    type NodeView: Clone;

    /// The tree is well formed.
    spec fn variant_wf(&self) -> bool;

    /// The tree holds no entry.
    spec fn variant_empty(&self) -> bool;

    /// The root node, if any.
    fn root_view(&'a self) -> (r: Option<Self::NodeView>)
        requires
            self.variant_wf(),
        ensures
            r is None <==> self.variant_empty(),
    ;
}

impl<'a, K: TreeKey + 'a, V: 'a> SplayTreeVariant<'a, K, V> for safe::SplayTree<K, V> {
    type NodeView = safe::SplayNodeView<'a, K, V>;

    open spec fn variant_wf(&self) -> bool {
        self.wf()
    }

    open spec fn variant_empty(&self) -> bool {
        self@.len() == 0
    }

    fn root_view(&'a self) -> (r: Option<Self::NodeView>) {
        safe::SplayTree::root_view(self)
    }
}

impl<'a, K: TreeKey + 'a, V: 'a> SplayTreeVariant<'a, K, V> for raw::SplayTree<K, V> {
    type NodeView = raw::SplayNodeView<'a, K, V>;

    open spec fn variant_wf(&self) -> bool {
        self.wf()
    }

    open spec fn variant_empty(&self) -> bool {
        self@.len() == 0
    }

    fn root_view(&'a self) -> (r: Option<Self::NodeView>) {
        raw::SplayTree::root_view(self)
    }
}

impl<'a, K: TreeKey + 'a, V: 'a> SplayTreeVariant<'a, K, V> for arena::SplayTree<K, V> {
    type NodeView = arena::SplayNodeView<'a, K, V>;

    open spec fn variant_wf(&self) -> bool {
        self.wf()
    }

    open spec fn variant_empty(&self) -> bool {
        self@.len() == 0
    }

    fn root_view(&'a self) -> (r: Option<Self::NodeView>) {
        arena::SplayTree::root_view(self)
    }
}

} // verus!
