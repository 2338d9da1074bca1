//! AVL tree nodes and rotations.
//!
//! A node carries its value, its height, and two optional owning
//! children.  The specs speak of a tree through three predicates —
//! binary-search order, stored heights correct, and balance within one —
//! and through its in-order sequence and element set.  Rotations swap
//! the parent's fields with the pivot child's in place, so an owning
//! reference to the parent stays valid.

use vstd::prelude::*;

verus! {

pub type AvlTree = Option<Box<AvlNode>>;

#[derive(Debug, Clone, Copy, PartialEq, Eq, Structural)]
pub enum RotateError {
    NoLeftChild,
    NoRightChild,
}

#[derive(Debug, Clone, Copy, PartialEq, Eq, Structural)]
pub enum AVLNodeError {
    RotateError(RotateError),
    NodeNotFound,
}

#[derive(Debug)]
pub struct AvlNode {
    pub value: u64,
    pub height: usize,
    pub left: AvlTree,
    pub right: AvlTree,
}

/// The larger of two heights.
pub open spec fn nat_max(a: nat, b: nat) -> nat {
    if a >= b {
        a
    } else {
        b
    }
}

/// The in-order sequence of a tree.
pub open spec fn tree_seq(t: AvlTree) -> Seq<u64>
    decreases t,
{
    match t {
        None => Seq::empty(),
        Some(n) => tree_seq(n.left) + seq![n.value] + tree_seq(n.right),
    }
}

/// The element set of a tree.
pub open spec fn tree_set(t: AvlTree) -> Set<u64>
    decreases t,
{
    match t {
        None => Set::empty(),
        Some(n) => tree_set(n.left).union(tree_set(n.right)).insert(n.value),
    }
}

/// The true height of a tree: zero for an empty tree, one more than the
/// taller child otherwise.
pub open spec fn spec_height(t: AvlTree) -> nat
    decreases t,
{
    match t {
        None => 0,
        Some(n) => 1 + nat_max(spec_height(n.left), spec_height(n.right)),
    }
}

/// Binary-search order: everything left of a node is smaller, everything
/// right of it larger, at every node.
pub open spec fn is_bst(t: AvlTree) -> bool
    decreases t,
{
    match t {
        None => true,
        Some(n) => {
            &&& is_bst(n.left)
            &&& is_bst(n.right)
            &&& forall|x: u64| tree_set(n.left).contains(x) ==> x < n.value
            &&& forall|x: u64| tree_set(n.right).contains(x) ==> x > n.value
        },
    }
}

/// Every stored height equals the true height.
pub open spec fn heights_ok(t: AvlTree) -> bool
    decreases t,
{
    match t {
        None => true,
        Some(n) => {
            &&& heights_ok(n.left)
            &&& heights_ok(n.right)
            &&& n.height == 1 + nat_max(spec_height(n.left), spec_height(n.right))
        },
    }
}

/// Every node's children differ in height by at most one.
pub open spec fn balanced(t: AvlTree) -> bool
    decreases t,
{
    match t {
        None => true,
        Some(n) => {
            &&& balanced(n.left)
            &&& balanced(n.right)
            &&& -1 <= spec_height(n.left) - spec_height(n.right) <= 1
        },
    }
}

/// A well-formed AVL tree.
pub open spec fn wf_tree(t: AvlTree) -> bool {
    is_bst(t) && heights_ok(t) && balanced(t)
}

/// The in-order sequence of the tree rooted at a node.
pub open spec fn node_seq(n: AvlNode) -> Seq<u64> {
    tree_seq(n.left) + seq![n.value] + tree_seq(n.right)
}

/// The element set of the tree rooted at a node.
pub open spec fn node_set(n: AvlNode) -> Set<u64> {
    tree_set(n.left).union(tree_set(n.right)).insert(n.value)
}

/// The true height of the tree rooted at a node.
pub open spec fn node_height(n: AvlNode) -> nat {
    1 + nat_max(spec_height(n.left), spec_height(n.right))
}

/// Binary-search order at a node.
pub open spec fn node_bst(n: AvlNode) -> bool {
    &&& is_bst(n.left)
    &&& is_bst(n.right)
    &&& forall|x: u64| tree_set(n.left).contains(x) ==> x < n.value
    &&& forall|x: u64| tree_set(n.right).contains(x) ==> x > n.value
}

/// The stored height of a tree's root, zero for an empty tree.
pub open spec fn stored_height(t: AvlTree) -> int {
    match t {
        None => 0,
        Some(n) => n.height as int,
    }
}

/// A tree with correct stored heights stores its true height at the root.
pub proof fn lemma_stored_is_spec(t: AvlTree)
    requires
        heights_ok(t),
    ensures
        stored_height(t) == spec_height(t),
{
}

impl AvlNode {
    /// The stored height of the left child.
    pub fn left_height(&self) -> (r: usize)
        ensures
            r == stored_height(self.left),
    {
        match &self.left {
            Some(l) => l.height,
            None => 0,
        }
    }

    /// The stored height of the right child.
    pub fn right_height(&self) -> (r: usize)
        ensures
            r == stored_height(self.right),
    {
        match &self.right {
            Some(r) => r.height,
            None => 0,
        }
    }

    /// Recomputes this node's height from its children's stored heights.
    pub fn update_height(&mut self)
        requires
            stored_height(old(self).left) < usize::MAX,
            stored_height(old(self).right) < usize::MAX,
        ensures
            final(self).value == old(self).value,
            final(self).left == old(self).left,
            final(self).right == old(self).right,
            final(self).height == 1 + if stored_height(old(self).left) >= stored_height(
                old(self).right,
            ) {
                stored_height(old(self).left)
            } else {
                stored_height(old(self).right)
            },
    {
        let lh = self.left_height();
        let rh = self.right_height();
        self.height = 1 + if lh >= rh {
            lh
        } else {
            rh
        };
    }

    /// Left height minus right height, from the stored heights.
    pub fn balance_factor(&self) -> (r: i8)
        requires
            -2 <= stored_height(self.left) - stored_height(self.right) <= 2,
        ensures
            r as int == stored_height(self.left) - stored_height(self.right),
    {
        let lh = self.left_height();
        let rh = self.right_height();
        if lh >= rh {
            (lh - rh) as i8
        } else {
            -((rh - lh) as i8)
        }
    }

    /// Rotates the subtree right: the left child's value takes this
    /// node's place, this node's value moves into the new right child.
    /// The in-order sequence, the element set and the search order are
    /// untouched; the two recomputed heights are stated exactly.
    pub fn rotate_right(&mut self) -> (r: Result<(), RotateError>)
        requires
            heights_ok(old(self).left),
            heights_ok(old(self).right),
            node_height(*old(self)) + 1 <= usize::MAX,
        ensures
            match r {
                Ok(()) => {
                    &&& old(self).left is Some
                    &&& {
                        let l = old(self).left->Some_0;
                        &&& final(self).value == l.value
                        &&& final(self).left == l.left
                        &&& final(self).right is Some
                        &&& {
                            let m = final(self).right->Some_0;
                            &&& m.value == old(self).value
                            &&& m.left == l.right
                            &&& m.right == old(self).right
                            &&& m.height == 1 + nat_max(
                                spec_height(l.right),
                                spec_height(old(self).right),
                            )
                        }
                        &&& final(self).height == node_height(*final(self))
                        &&& heights_ok(final(self).left)
                        &&& heights_ok(final(self).right)
                        &&& node_seq(*final(self)) == node_seq(*old(self))
                        &&& node_set(*final(self)) =~= node_set(*old(self))
                        &&& (node_bst(*old(self)) ==> node_bst(*final(self)))
                    }
                },
                Err(e) => e == RotateError::NoLeftChild && *final(self) == *old(self) && old(
                    self,
                ).left is None,
            },
    {
        let ghost old_node = *old(self);
        let mut lopt: AvlTree = None;
        core::mem::swap(&mut self.left, &mut lopt);
        let mut l = match lopt {
            Some(l) => l,
            None => {
                return Err(RotateError::NoLeftChild);
            },
        };
        let mut lr: AvlTree = None;
        core::mem::swap(&mut l.right, &mut lr);
        self.left = lr;
        proof {
            let lo = old_node.left->Some_0;
            lemma_stored_is_spec(lo.right);
            lemma_stored_is_spec(old_node.right);
            assert(spec_height(old_node.left) == 1 + nat_max(
                spec_height(lo.left),
                spec_height(lo.right),
            ));
            assert(spec_height(lo.right) < node_height(old_node));
            assert(spec_height(old_node.right) < node_height(old_node));
        }
        self.update_height();
        core::mem::swap(&mut self.value, &mut l.value);
        core::mem::swap(&mut self.height, &mut l.height);
        core::mem::swap(&mut self.left, &mut l.left);
        core::mem::swap(&mut self.right, &mut l.right);
        self.right = Some(l);
        proof {
            let lo = old_node.left->Some_0;
            lemma_stored_is_spec(lo.left);
            assert(stored_height(self.right) == 1 + nat_max(
                spec_height(lo.right),
                spec_height(old_node.right),
            ));
            assert(stored_height(self.left) == spec_height(lo.left));
            assert(spec_height(lo.left) < node_height(old_node));
            assert(stored_height(self.right) <= node_height(old_node));
        }
        self.update_height();
        proof {
            let lo = old_node.left->Some_0;
            let m = self.right->Some_0;
            assert(spec_height(self.right) == m.height);
            assert(final(self).height == node_height(*self)) by {
                assert(stored_height(self.left) == spec_height(self.left));
            }
        }
        proof {
            let lo = old_node.left->Some_0;
            let m = self.right->Some_0;
            assert(node_seq(*self) =~= node_seq(old_node)) by {
                assert(tree_seq(self.right) =~= tree_seq(lo.right) + seq![old_node.value]
                    + tree_seq(old_node.right));
                assert((tree_seq(lo.left) + seq![lo.value] + tree_seq(lo.right)) + seq![
                    old_node.value,
                ] + tree_seq(old_node.right) =~= tree_seq(lo.left) + seq![lo.value] + (tree_seq(
                    lo.right,
                ) + seq![old_node.value] + tree_seq(old_node.right)));
            }
            assert(node_set(*self) =~= node_set(old_node)) by {
                assert(tree_set(self.right) =~= tree_set(lo.right).union(
                    tree_set(old_node.right),
                ).insert(old_node.value));
            }
            if node_bst(old_node) {
                assert(node_bst(*self)) by {
                    assert(tree_set(m.left).contains(m.value) == false || true);
                    assert forall|x: u64| tree_set(self.right).contains(x) implies x
                        > self.value by {
                        assert(tree_set(self.right) =~= tree_set(lo.right).union(
                            tree_set(old_node.right),
                        ).insert(old_node.value));
                        if tree_set(lo.right).contains(x) {
                            assert(tree_set(old_node.left).contains(x));
                        } else if x == old_node.value {
                            assert(tree_set(old_node.left).contains(lo.value));
                        } else {
                            assert(tree_set(old_node.right).contains(x));
                            assert(tree_set(old_node.left).contains(lo.value));
                        }
                    }
                    assert forall|x: u64| tree_set(m.left).contains(x) implies x < m.value by {
                        assert(tree_set(old_node.left).contains(x));
                    }
                    assert forall|x: u64| tree_set(m.right).contains(x) implies x > m.value by {}
                }
            }
        }
        Ok(())
    }

    /// Rotates the subtree left: the mirror image of `rotate_right`.
    pub fn rotate_left(&mut self) -> (r: Result<(), RotateError>)
        requires
            heights_ok(old(self).left),
            heights_ok(old(self).right),
            node_height(*old(self)) + 1 <= usize::MAX,
        ensures
            match r {
                Ok(()) => {
                    &&& old(self).right is Some
                    &&& {
                        let l = old(self).right->Some_0;
                        &&& final(self).value == l.value
                        &&& final(self).right == l.right
                        &&& final(self).left is Some
                        &&& {
                            let m = final(self).left->Some_0;
                            &&& m.value == old(self).value
                            &&& m.right == l.left
                            &&& m.left == old(self).left
                            &&& m.height == 1 + nat_max(
                                spec_height(old(self).left),
                                spec_height(l.left),
                            )
                        }
                        &&& final(self).height == node_height(*final(self))
                        &&& heights_ok(final(self).left)
                        &&& heights_ok(final(self).right)
                        &&& node_seq(*final(self)) == node_seq(*old(self))
                        &&& node_set(*final(self)) =~= node_set(*old(self))
                        &&& (node_bst(*old(self)) ==> node_bst(*final(self)))
                    }
                },
                Err(e) => e == RotateError::NoRightChild && *final(self) == *old(self) && old(
                    self,
                ).right is None,
            },
    {
        let ghost old_node = *old(self);
        let mut ropt: AvlTree = None;
        core::mem::swap(&mut self.right, &mut ropt);
        let mut rn = match ropt {
            Some(rn) => rn,
            None => {
                return Err(RotateError::NoRightChild);
            },
        };
        let mut rl: AvlTree = None;
        core::mem::swap(&mut rn.left, &mut rl);
        self.right = rl;
        proof {
            let ro = old_node.right->Some_0;
            lemma_stored_is_spec(ro.left);
            lemma_stored_is_spec(old_node.left);
            assert(spec_height(old_node.right) == 1 + nat_max(
                spec_height(ro.left),
                spec_height(ro.right),
            ));
            assert(spec_height(ro.left) < node_height(old_node));
            assert(spec_height(old_node.left) < node_height(old_node));
        }
        self.update_height();
        core::mem::swap(&mut self.value, &mut rn.value);
        core::mem::swap(&mut self.height, &mut rn.height);
        core::mem::swap(&mut self.left, &mut rn.left);
        core::mem::swap(&mut self.right, &mut rn.right);
        self.left = Some(rn);
        proof {
            let ro = old_node.right->Some_0;
            lemma_stored_is_spec(ro.right);
            assert(stored_height(self.left) == 1 + nat_max(
                spec_height(old_node.left),
                spec_height(ro.left),
            ));
            assert(stored_height(self.right) == spec_height(ro.right));
            assert(spec_height(ro.right) < node_height(old_node));
            assert(stored_height(self.left) <= node_height(old_node));
        }
        self.update_height();
        proof {
            let ro = old_node.right->Some_0;
            let m = self.left->Some_0;
            assert(spec_height(self.left) == m.height);
            assert(final(self).height == node_height(*self)) by {
                assert(stored_height(self.right) == spec_height(self.right));
            }
        }
        proof {
            let ro = old_node.right->Some_0;
            let m = self.left->Some_0;
            assert(node_seq(*self) =~= node_seq(old_node)) by {
                assert(tree_seq(self.left) =~= tree_seq(old_node.left) + seq![old_node.value]
                    + tree_seq(ro.left));
                assert(tree_seq(old_node.left) + seq![old_node.value] + (tree_seq(ro.left) + seq![
                    ro.value,
                ] + tree_seq(ro.right)) =~= (tree_seq(old_node.left) + seq![old_node.value]
                    + tree_seq(ro.left)) + seq![ro.value] + tree_seq(ro.right));
            }
            assert(node_set(*self) =~= node_set(old_node)) by {
                assert(tree_set(self.left) =~= tree_set(old_node.left).union(
                    tree_set(ro.left),
                ).insert(old_node.value));
            }
            if node_bst(old_node) {
                assert(node_bst(*self)) by {
                    assert forall|x: u64| tree_set(self.left).contains(x) implies x
                        < self.value by {
                        assert(tree_set(self.left) =~= tree_set(old_node.left).union(
                            tree_set(ro.left),
                        ).insert(old_node.value));
                        if tree_set(ro.left).contains(x) {
                            assert(tree_set(old_node.right).contains(x));
                        } else if x == old_node.value {
                            assert(tree_set(old_node.right).contains(ro.value));
                        } else {
                            assert(tree_set(old_node.left).contains(x));
                            assert(tree_set(old_node.right).contains(ro.value));
                        }
                    }
                    assert forall|x: u64| tree_set(m.right).contains(x) implies x > m.value by {
                        assert(tree_set(old_node.right).contains(x));
                    }
                    assert forall|x: u64| tree_set(m.left).contains(x) implies x < m.value by {}
                }
            }
        }
        Ok(())
    }

    /// Restores the AVL balance at this node after one child has grown
    /// or shrunk by one: a single or double rotation, or nothing when
    /// the balance factor is already within one.  The height settles at
    /// its recomputed value or one below it.
    #[verifier::rlimit(80)]
    pub fn rebalance(&mut self) -> (r: Result<(), AVLNodeError>)
        requires
            node_bst(*old(self)),
            heights_ok(old(self).left),
            heights_ok(old(self).right),
            balanced(old(self).left),
            balanced(old(self).right),
            old(self).height == node_height(*old(self)),
            -2 <= spec_height(old(self).left) - spec_height(old(self).right) <= 2,
            node_height(*old(self)) + 1 <= usize::MAX,
        ensures
            r is Ok,
            node_seq(*final(self)) == node_seq(*old(self)),
            node_set(*final(self)) == node_set(*old(self)),
            node_bst(*final(self)),
            heights_ok(final(self).left),
            heights_ok(final(self).right),
            balanced(final(self).left),
            balanced(final(self).right),
            -1 <= spec_height(final(self).left) - spec_height(final(self).right) <= 1,
            final(self).height == node_height(*final(self)),
            node_height(*old(self)) - 1 <= node_height(*final(self)) <= node_height(*old(self)),
            -1 <= spec_height(old(self).left) - spec_height(old(self).right) <= 1 ==> *final(self)
                == *old(self),
    {
        let ghost old_node = *old(self);
        proof {
            lemma_stored_is_spec(old_node.left);
            lemma_stored_is_spec(old_node.right);
        }
        let bf = self.balance_factor();
        let ghost hl = spec_height(old_node.left);
        let ghost hr = spec_height(old_node.right);
        if bf == -2 {
            proof {
                assert(hr == hl + 2);
                if old_node.right is None {
                    assert(false);
                }
            }
            let mut rn = match self.right.take() {
                Some(rn) => rn,
                None => vstd::pervasive::unreached(),
            };
            let ghost rn0 = *rn;
            proof {
                assert(*old_node.right->Some_0 == rn0);
                assert(balanced(rn0.left) && balanced(rn0.right));
                assert(heights_ok(rn0.left) && heights_ok(rn0.right));
                assert(is_bst(rn0.left) && is_bst(rn0.right));
                lemma_stored_is_spec(rn0.left);
                lemma_stored_is_spec(rn0.right);
            }
            let rbf = rn.balance_factor();
            let ghost hrl = spec_height(rn0.left);
            let ghost hrr = spec_height(rn0.right);
            proof {
                assert(1 + nat_max(hrl, hrr) == hl + 2);
                assert(-1 <= hrl - hrr <= 1);
            }
            if rbf == 1 {
                proof {
                    assert(hrl == hl + 1 && hrr == hl);
                    if rn0.left is None {
                        assert(false);
                    }
                    assert(node_height(rn0) + 1 <= usize::MAX);
                }
                let rr = rn.rotate_right();
                proof {
                    assert(rr is Ok) by {
                        if rr is Err {
                            assert(rn0.left is None);
                        }
                    }
                    let rnl = rn0.left->Some_0;
                    let m2 = rn.right->Some_0;
                    assert(1 + nat_max(spec_height(rnl.left), spec_height(rnl.right)) == hl + 1);
                    assert(spec_height(rn.right) == 1 + nat_max(spec_height(rnl.right), hrr));
                    assert(heights_ok(self.left));
                    assert(heights_ok(Some(rn)) && spec_height(Some(rn)) == hl + 2) by {
                        assert(heights_ok(rn.left) && heights_ok(rn.right));
                        assert(rn.height == node_height(*rn));
                    }
                }
            } else {
                proof {
                    assert(-1 <= rbf as int <= 0);
                    assert(spec_height(Some(rn)) == hl + 2);
                }
            }
            self.right = Some(rn);
            proof {
                assert(heights_ok(self.right));
                assert(spec_height(self.right) == hl + 2);
                assert(node_height(*self) + 1 <= usize::MAX);
                assert(node_set(*self.right->Some_0) =~= node_set(rn0)) by {
                    if rbf == 1 {
                    } else {
                    }
                }
                assert(tree_set(self.right) =~= tree_set(old_node.right));
                assert(tree_seq(self.right) =~= tree_seq(old_node.right));
                assert(node_bst(*self)) by {
                    assert(is_bst(self.right)) by {
                        if rbf == 1 {
                            assert(node_bst(rn0));
                            assert(node_bst(*rn));
                        }
                    }
                    assert forall|x: u64| tree_set(self.right).contains(x) implies x
                        > self.value by {
                        assert(tree_set(old_node.right).contains(x));
                    }
                }
                assert(node_set(*self) =~= node_set(old_node));
                assert(node_seq(*self) =~= node_seq(old_node));
            }
            let ghost before = *self;
            let rl = self.rotate_left();
            proof {
                assert(rl is Ok) by {
                    if rl is Err {
                        assert(before.right is None);
                    }
                }
                let l = before.right->Some_0;
                let m = self.left->Some_0;
                assert(balanced(self.left)) by {
                    assert(m.left == old_node.left);
                    assert(balanced(m.left));
                    if rbf == 1 {
                        let rnl = rn0.left->Some_0;
                        assert(m.right == rnl.left);
                        assert(balanced(rn0.left));
                        assert(balanced(m.right));
                        assert(1 + nat_max(spec_height(rnl.left), spec_height(rnl.right)) == hl
                            + 1);
                        assert(-1 <= spec_height(rnl.left) - spec_height(rnl.right) <= 1);
                        assert(-1 <= hl - spec_height(m.right) <= 1);
                    } else {
                        assert(m.right == rn0.left);
                        assert(balanced(m.right));
                        assert(-1 <= hl - hrl <= 1);
                    }
                }
                assert(balanced(self.right)) by {
                    if rbf == 1 {
                        let rnl = rn0.left->Some_0;
                        assert(self.right == l.right);
                        assert(balanced(rn0.left));
                        assert(balanced(rnl.right));
                        assert(balanced(rn0.right));
                        assert(spec_height(rnl.right) <= hl);
                        assert(-1 <= spec_height(rnl.right) - hrr <= 1);
                    } else {
                        assert(self.right == rn0.right);
                    }
                }
                assert(-1 <= spec_height(self.left) - spec_height(self.right) <= 1);
                assert(node_height(old_node) - 1 <= node_height(*self) <= node_height(old_node));
                assert(node_seq(*self) =~= node_seq(old_node));
                assert(node_set(*self) =~= node_set(old_node));
            }
            Ok(())
        } else if bf == 2 {
            proof {
                assert(hl == hr + 2);
                if old_node.left is None {
                    assert(false);
                }
            }
            let mut ln = match self.left.take() {
                Some(ln) => ln,
                None => vstd::pervasive::unreached(),
            };
            let ghost ln0 = *ln;
            proof {
                assert(*old_node.left->Some_0 == ln0);
                assert(balanced(ln0.left) && balanced(ln0.right));
                assert(heights_ok(ln0.left) && heights_ok(ln0.right));
                assert(is_bst(ln0.left) && is_bst(ln0.right));
                lemma_stored_is_spec(ln0.left);
                lemma_stored_is_spec(ln0.right);
            }
            let lbf = ln.balance_factor();
            let ghost hll = spec_height(ln0.left);
            let ghost hlr = spec_height(ln0.right);
            proof {
                assert(1 + nat_max(hll, hlr) == hr + 2);
                assert(-1 <= hll - hlr <= 1);
            }
            if lbf == -1 {
                proof {
                    assert(hlr == hr + 1 && hll == hr);
                    if ln0.right is None {
                        assert(false);
                    }
                    assert(node_height(ln0) + 1 <= usize::MAX);
                }
                let lr = ln.rotate_left();
                proof {
                    assert(lr is Ok) by {
                        if lr is Err {
                            assert(ln0.right is None);
                        }
                    }
                    let lnr = ln0.right->Some_0;
                    assert(1 + nat_max(spec_height(lnr.left), spec_height(lnr.right)) == hr + 1);
                    assert(spec_height(ln.left) == 1 + nat_max(hll, spec_height(lnr.left)));
                    assert(heights_ok(Some(ln)) && spec_height(Some(ln)) == hr + 2) by {
                        assert(heights_ok(ln.left) && heights_ok(ln.right));
                        assert(ln.height == node_height(*ln));
                    }
                }
            } else {
                proof {
                    assert(0 <= lbf as int <= 1);
                    assert(spec_height(Some(ln)) == hr + 2);
                }
            }
            self.left = Some(ln);
            proof {
                assert(heights_ok(self.left));
                assert(spec_height(self.left) == hr + 2);
                assert(node_height(*self) + 1 <= usize::MAX);
                assert(node_set(*self.left->Some_0) =~= node_set(ln0)) by {
                    if lbf == -1 {
                    } else {
                    }
                }
                assert(tree_set(self.left) =~= tree_set(old_node.left));
                assert(tree_seq(self.left) =~= tree_seq(old_node.left));
                assert(node_bst(*self)) by {
                    assert(is_bst(self.left)) by {
                        if lbf == -1 {
                            assert(node_bst(ln0));
                            assert(node_bst(*ln));
                        }
                    }
                    assert forall|x: u64| tree_set(self.left).contains(x) implies x
                        < self.value by {
                        assert(tree_set(old_node.left).contains(x));
                    }
                }
                assert(node_set(*self) =~= node_set(old_node));
                assert(node_seq(*self) =~= node_seq(old_node));
            }
            let ghost before = *self;
            let rr = self.rotate_right();
            proof {
                assert(rr is Ok) by {
                    if rr is Err {
                        assert(before.left is None);
                    }
                }
                let l = before.left->Some_0;
                let m = self.right->Some_0;
                assert(balanced(self.right)) by {
                    assert(m.right == old_node.right);
                    assert(balanced(m.right));
                    if lbf == -1 {
                        let lnr = ln0.right->Some_0;
                        assert(m.left == lnr.right);
                        assert(balanced(ln0.right));
                        assert(balanced(m.left));
                        assert(1 + nat_max(spec_height(lnr.left), spec_height(lnr.right)) == hr
                            + 1);
                        assert(-1 <= spec_height(lnr.left) - spec_height(lnr.right) <= 1);
                        assert(-1 <= spec_height(m.left) - hr <= 1);
                    } else {
                        assert(m.left == ln0.right);
                        assert(balanced(m.left));
                        assert(-1 <= hlr - hr <= 1);
                    }
                }
                assert(balanced(self.left)) by {
                    if lbf == -1 {
                        let lnr = ln0.right->Some_0;
                        assert(self.left == l.left);
                        assert(balanced(ln0.right));
                        assert(balanced(lnr.left));
                        assert(balanced(ln0.left));
                        assert(spec_height(lnr.left) <= hr);
                        assert(-1 <= hll - spec_height(lnr.left) <= 1);
                    } else {
                        assert(self.left == ln0.left);
                    }
                }
                assert(-1 <= spec_height(self.left) - spec_height(self.right) <= 1);
                assert(node_height(old_node) - 1 <= node_height(*self) <= node_height(old_node));
                assert(node_seq(*self) =~= node_seq(old_node));
                assert(node_set(*self) =~= node_set(old_node));
            }
            Ok(())
        } else {
            Ok(())
        }
    }
}

} // verus!
