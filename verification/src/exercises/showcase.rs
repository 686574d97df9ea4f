//! The predefined showcase: scripted operations on a binary search tree and on a red-black
//! tree, stepped through one at a time, with the depth figures its screen shows.
use vstd::prelude::*;

use crate::exercises::types::{Op, TreeKind};
use crate::key::TreeKey;
use crate::trees::binary_search_tree::safe::{BinarySearchTree, BstNodeView};
use crate::trees::node::height_of;
use crate::trees::red_black_tree::engine::black_height;
use crate::trees::red_black_tree::safe::{RbNodeView, RedBlackTree};

verus! {

/// The scripted operations of the showcase of a tree kind.
pub open spec fn showcase_ops(kind: TreeKind) -> Seq<Op> {
    match kind {
        TreeKind::Bst => seq![
            Op::Insert(50),
            Op::Insert(25),
            Op::Insert(75),
            Op::Insert(10),
            Op::Insert(30),
            Op::Insert(60),
            Op::Insert(90),
            Op::Insert(5),
            Op::Insert(15),
            Op::Insert(27),
            Op::Insert(35),
            Op::Insert(80),
            Op::Insert(100),
            Op::Delete(25),
            Op::Delete(50),
            Op::Delete(90),
        ],
        TreeKind::Rb => seq![
            Op::Insert(10),
            Op::Insert(20),
            Op::Insert(30),
            Op::Insert(40),
            Op::Insert(50),
            Op::Insert(25),
            Op::Insert(15),
            Op::Insert(5),
            Op::Insert(3),
            Op::Delete(20),
            Op::Delete(30),
            Op::Delete(50),
        ],
    }
}

/// The set of values, as a map to `()`, after carrying out `ops` on an empty tree.
pub open spec fn ops_map(ops: Seq<Op>) -> Map<i32, ()>
    decreases ops.len(),
{
    if ops.len() == 0 {
        Map::empty()
    } else {
        let m = ops_map(ops.drop_last());
        match ops.last() {
            Op::Insert(v) => m.insert(v, ()),
            Op::Delete(v) => m.remove(v),
        }
    }
}

/// The scripted operations of a tree kind.
pub fn showcase_operations(kind: TreeKind) -> (r: Vec<Op>)
    ensures
        r@ == showcase_ops(kind),
{
    let mut v: Vec<Op> = Vec::new();
    match kind {
        TreeKind::Bst => {
            v.push(Op::Insert(50));
            v.push(Op::Insert(25));
            v.push(Op::Insert(75));
            v.push(Op::Insert(10));
            v.push(Op::Insert(30));
            v.push(Op::Insert(60));
            v.push(Op::Insert(90));
            v.push(Op::Insert(5));
            v.push(Op::Insert(15));
            v.push(Op::Insert(27));
            v.push(Op::Insert(35));
            v.push(Op::Insert(80));
            v.push(Op::Insert(100));
            v.push(Op::Delete(25));
            v.push(Op::Delete(50));
            v.push(Op::Delete(90));
        },
        TreeKind::Rb => {
            v.push(Op::Insert(10));
            v.push(Op::Insert(20));
            v.push(Op::Insert(30));
            v.push(Op::Insert(40));
            v.push(Op::Insert(50));
            v.push(Op::Insert(25));
            v.push(Op::Insert(15));
            v.push(Op::Insert(5));
            v.push(Op::Insert(3));
            v.push(Op::Delete(20));
            v.push(Op::Delete(30));
            v.push(Op::Delete(50));
        },
    }
    proof {
        assert(v@ =~= showcase_ops(kind));
    }
    v
}

/// A tree made by operations has finitely many values, no more than operations.
proof fn lemma_ops_map_len(ops: Seq<Op>)
    ensures
        ops_map(ops).dom().finite(),
        ops_map(ops).len() <= ops.len(),
    decreases ops.len(),
{
    if ops.len() > 0 {
        lemma_ops_map_len(ops.drop_last());
        let m = ops_map(ops.drop_last());
        match ops.last() {
            Op::Insert(v) => {
                if m.dom().contains(v) {
                    assert(m.insert(v, ()).dom() =~= m.dom());
                }
            },
            Op::Delete(v) => {
                vstd::set_lib::lemma_len_subset(m.remove(v).dom(), m.dom());
            },
        }
    }
}

/// The step of a showcase: which tree kind it shows and how many operations are done.
pub struct ShowcaseState {
    pub kind: TreeKind,
    pub step: usize,
}

impl ShowcaseState {
    /// The showcase of a tree kind before its first operation.
    pub fn new(kind: TreeKind) -> (r: Self)
        ensures
            r.kind == kind,
            r.step == 0,
    {
        ShowcaseState { kind, step: 0 }
    }

    /// The title of the showcase screen.
    pub fn screen_title(&self) -> (r: &'static str)
        ensures
            r@ == (match self.kind {
                TreeKind::Bst => "BST Showcase"@,
                TreeKind::Rb => "Red-Black Tree Showcase"@,
            }),
    {
        match self.kind {
            TreeKind::Bst => "BST Showcase",
            TreeKind::Rb => "Red-Black Tree Showcase",
        }
    }

    /// The title of the tree pane.
    pub fn tree_title(&self) -> (r: &'static str)
        ensures
            r@ == (match self.kind {
                TreeKind::Bst => "Binary Search Tree"@,
                TreeKind::Rb => "Red-Black Tree"@,
            }),
    {
        match self.kind {
            TreeKind::Bst => "Binary Search Tree",
            TreeKind::Rb => "Red-Black Tree",
        }
    }

    /// The scripted operations of this showcase.
    pub fn operations(&self) -> (r: Vec<Op>)
        ensures
            r@ == showcase_ops(self.kind),
    {
        showcase_operations(self.kind)
    }

    /// Moves one operation forward, stopping after the last.
    pub fn next_step(&mut self)
        requires
            old(self).step < usize::MAX,
        ensures
            final(self).kind == old(self).kind,
            final(self).step == (if old(self).step + 1 < showcase_ops(old(self).kind).len() {
                old(self).step + 1
            } else {
                showcase_ops(old(self).kind).len() as int
            }),
    {
        let n = self.operations().len();
        let next = self.step + 1;
        self.step = if next < n {
            next
        } else {
            n
        };
    }

    /// Moves one operation back, stopping at the start.
    pub fn previous_step(&mut self)
        ensures
            final(self).kind == old(self).kind,
            final(self).step == (if old(self).step > 0 {
                old(self).step - 1
            } else {
                0
            }),
    {
        self.step = if self.step > 0 {
            self.step - 1
        } else {
            0
        };
    }

    /// The operation done last, if any.
    pub fn current_action(&self) -> (r: Option<Op>)
        ensures
            r == (if 1 <= self.step <= showcase_ops(self.kind).len() {
                Some(showcase_ops(self.kind)[self.step - 1])
            } else {
                None::<Op>
            }),
    {
        if self.step == 0 {
            return None;
        }
        let ops = self.operations();
        let index = self.step - 1;
        if index < ops.len() {
            Some(ops[index])
        } else {
            None
        }
    }
}

/// The binary search tree after the first `step` operations of its showcase.
pub fn build_bst_showcase_tree(step: usize) -> (r: BinarySearchTree<i32, ()>)
    ensures
        r.wf(),
        r@ == ops_map(showcase_ops(TreeKind::Bst).take(
            if step < showcase_ops(TreeKind::Bst).len() {
                step as int
            } else {
                showcase_ops(TreeKind::Bst).len() as int
            },
        )),
{
    let ops = showcase_operations(TreeKind::Bst);
    let mut tree: BinarySearchTree<i32, ()> = BinarySearchTree::new();
    let mut i: usize = 0;
    while i < ops.len() && i < step
        invariant
            ops@ == showcase_ops(TreeKind::Bst),
            i <= ops@.len(),
            i <= step,
            tree.wf(),
            tree@ == ops_map(ops@.take(i as int)),
        decreases ops@.len() - i,
    {
        proof {
            lemma_ops_map_len(ops@.take(i as int));
            assert(ops@.take(i + 1).drop_last() =~= ops@.take(i as int));
        }
        match ops[i] {
            Op::Insert(v) => {
                tree.insert(v, ());
            },
            Op::Delete(v) => {
                tree.remove(&v);
            },
        }
        i = i + 1;
    }
    tree
}

/// The red-black tree after the first `step` operations of its showcase.
pub fn build_rb_showcase_tree(step: usize) -> (r: RedBlackTree<i32, ()>)
    ensures
        r.wf(),
        r@ == ops_map(showcase_ops(TreeKind::Rb).take(
            if step < showcase_ops(TreeKind::Rb).len() {
                step as int
            } else {
                showcase_ops(TreeKind::Rb).len() as int
            },
        )),
{
    let ops = showcase_operations(TreeKind::Rb);
    let mut tree: RedBlackTree<i32, ()> = RedBlackTree::new();
    let mut i: usize = 0;
    while i < ops.len() && i < step
        invariant
            ops@ == showcase_ops(TreeKind::Rb),
            i <= ops@.len(),
            i <= step,
            tree.wf(),
            tree@ == ops_map(ops@.take(i as int)),
        decreases ops@.len() - i,
    {
        proof {
            lemma_ops_map_len(ops@.take(i as int));
            assert(ops@.take(i + 1).drop_last() =~= ops@.take(i as int));
        }
        match ops[i] {
            Op::Insert(v) => {
                tree.insert(v, ());
            },
            Op::Delete(v) => {
                tree.remove(&v);
            },
        }
        i = i + 1;
    }
    tree
}

/// Number of nodes on the longest path down from a binary search tree node (0 for none).
pub fn bst_depth<K: TreeKey, V>(node: &Option<BstNodeView<'_, K, V>>) -> (r: usize)
    requires
        node matches Some(n) ==> n.wf() && height_of(Some(Box::new(n.node()))) <= usize::MAX,
    ensures
        r == match *node {
            None => 0,
            Some(n) => height_of(Some(Box::new(n.node()))),
        },
    decreases match node {
        None => 0,
        Some(n) => height_of(Some(Box::new(n.node()))),
    },
{
    match node {
        None => 0,
        Some(n) => {
            let l = n.left();
            let r = n.right();
            proof {
                let nd = n.node();
                if l is Some {
                    assert(nd.left == Some(Box::new(l->0.node())));
                }
                if r is Some {
                    assert(nd.right == Some(Box::new(r->0.node())));
                }
            }
            let dl = bst_depth(&l);
            let dr = bst_depth(&r);
            proof {
                let nd = n.node();
                assert(dl == height_of(nd.left));
                assert(dr == height_of(nd.right));
                assert(height_of(Some(Box::new(nd))) == 1 + if height_of(nd.left) >= height_of(
                    nd.right,
                ) {
                    height_of(nd.left)
                } else {
                    height_of(nd.right)
                });
            }
            1 + if dl >= dr {
                dl
            } else {
                dr
            }
        },
    }
}

/// Number of nodes on the longest path down from a red-black tree node (0 for none).
pub fn rb_depth<K: TreeKey, V>(node: &Option<RbNodeView<'_, K, V>>) -> (r: usize)
    requires
        node matches Some(n) ==> n.wf() && height_of(Some(Box::new(n.node()))) <= usize::MAX,
    ensures
        r == match *node {
            None => 0,
            Some(n) => height_of(Some(Box::new(n.node()))),
        },
    decreases match node {
        None => 0,
        Some(n) => height_of(Some(Box::new(n.node()))),
    },
{
    match node {
        None => 0,
        Some(n) => {
            let l = n.left();
            let r = n.right();
            proof {
                let nd = n.node();
                if l is Some {
                    assert(nd.left == Some(Box::new(l->0.node())));
                }
                if r is Some {
                    assert(nd.right == Some(Box::new(r->0.node())));
                }
            }
            let dl = rb_depth(&l);
            let dr = rb_depth(&r);
            proof {
                let nd = n.node();
                assert(dl == height_of(nd.left));
                assert(dr == height_of(nd.right));
                assert(height_of(Some(Box::new(nd))) == 1 + if height_of(nd.left) >= height_of(
                    nd.right,
                ) {
                    height_of(nd.left)
                } else {
                    height_of(nd.right)
                });
            }
            1 + if dl >= dr {
                dl
            } else {
                dr
            }
        },
    }
}

/// Number of black nodes on the path down the left children of a red-black tree node,
/// counting the empty link below the last as black (1 for no node).
pub fn rb_black_height<K: TreeKey, V>(node: &Option<RbNodeView<'_, K, V>>) -> (r: usize)
    requires
        node matches Some(n) ==> n.wf() && black_height(Some(Box::new(n.node()))) < usize::MAX,
    ensures
        r == match *node {
            None => 1,
            Some(n) => black_height(Some(Box::new(n.node()))) + 1,
        },
    decreases match node {
        None => 0,
        Some(n) => height_of(Some(Box::new(n.node()))),
    },
{
    match node {
        None => 1,
        Some(n) => {
            let l = n.left();
            proof {
                let nd = n.node();
                assert(black_height(Some(Box::new(nd))) == black_height(nd.left) + if nd.aux.color
                    == crate::trees::red_black_tree::engine::NodeColor::Black {
                    1nat
                } else {
                    0nat
                });
                if l is Some {
                    assert(nd.left == Some(Box::new(l->0.node())));
                }
            }
            let hl = rb_black_height(&l);
            match n.color() {
                crate::trees::red_black_tree::engine::NodeColor::Black => hl + 1,
                crate::trees::red_black_tree::engine::NodeColor::Red => hl,
            }
        },
    }
}

} // verus!
