//! The AVL ordered set.
//!
//! Insert and delete keep the tree a height-balanced binary search tree;
//! iteration yields the elements in strictly ascending order.  Deleting
//! an interior node with two children promotes its in-order successor,
//! the leftmost node of the right subtree.

use super::node::{balanced, heights_ok, is_bst, lemma_stored_is_spec, nat_max, spec_height,
    tree_seq, tree_set, wf_tree, AvlNode, AvlTree};
use vstd::prelude::*;

verus! {

#[derive(Debug, Clone, Copy, PartialEq, Eq, Structural)]
pub enum InsertError {
    AvlError(super::node::AVLNodeError),
    AlreadyExistError,
}

#[derive(Debug, Clone, Copy, PartialEq, Eq, Structural)]
pub enum DeleteError {
    AvlError(super::node::AVLNodeError),
    NodeNotFound,
}

#[derive(Debug, Clone, Copy, PartialEq, Eq, Structural)]
pub enum AvlTreeSetError {
    InsertError(InsertError),
}

#[derive(Debug)]
pub struct AvlTreeSet {
    pub root: AvlTree,
}

impl AvlTreeSet {
    /// A height-balanced search tree with correct stored heights.
    pub open spec fn wf(self) -> bool {
        wf_tree(self.root)
    }

    /// The elements in ascending order.
    pub open spec fn to_seq(self) -> Seq<u64> {
        tree_seq(self.root)
    }

    /// The element set.
    pub open spec fn to_set(self) -> Set<u64> {
        tree_set(self.root)
    }

    pub fn new() -> (r: Self)
        ensures
            r.wf(),
            r.to_set() == Set::<u64>::empty(),
            r.to_seq() == Seq::<u64>::empty(),
    {
        Self { root: None }
    }

    /// Adds the value; a value already present is reported and nothing
    /// changes.
    pub fn insert(&mut self, value: u64) -> (r: Result<(), InsertError>)
        requires
            old(self).wf(),
            spec_height(old(self).root) + 2 <= usize::MAX,
        ensures
            final(self).wf(),
            r is Ok <==> !old(self).to_set().contains(value),
            r is Ok ==> final(self).to_set() == old(self).to_set().insert(value),
            r is Err ==> *final(self) == *old(self) && r == Err::<(), InsertError>(
                InsertError::AlreadyExistError,
            ),
    {
        let mut root: AvlTree = None;
        core::mem::swap(&mut self.root, &mut root);
        let (new_root, inserted) = insert_tree(root, value);
        self.root = new_root;
        if inserted {
            Ok(())
        } else {
            Err(InsertError::AlreadyExistError)
        }
    }

    /// Removes the value; an absent value is reported and nothing
    /// changes.
    pub fn delete(&mut self, value: &u64) -> (r: Result<(), DeleteError>)
        requires
            old(self).wf(),
            spec_height(old(self).root) < usize::MAX,
        ensures
            final(self).wf(),
            r is Ok <==> old(self).to_set().contains(*value),
            r is Ok ==> final(self).to_set() == old(self).to_set().remove(*value),
            r is Err ==> *final(self) == *old(self) && r == Err::<(), DeleteError>(
                DeleteError::NodeNotFound,
            ),
    {
        let mut root: AvlTree = None;
        core::mem::swap(&mut self.root, &mut root);
        let (new_root, removed) = delete_tree(root, *value);
        self.root = new_root;
        if removed {
            Ok(())
        } else {
            Err(DeleteError::NodeNotFound)
        }
    }

    /// The elements in ascending order.
    pub fn iter(&self) -> (r: Vec<u64>)
        ensures
            r@ == self.to_seq(),
    {
        let mut out: Vec<u64> = Vec::new();
        collect_inorder(&self.root, &mut out);
        out
    }
}

/// Appends the in-order sequence of the tree to `out`.
fn collect_inorder(t: &AvlTree, out: &mut Vec<u64>)
    ensures
        final(out)@ == old(out)@ + tree_seq(*t),
    decreases t,
{
    match t {
        None => {
            proof {
                assert(out@ =~= old(out)@ + tree_seq(*t));
            }
        },
        Some(n) => {
            collect_inorder(&n.left, out);
            out.push(n.value);
            collect_inorder(&n.right, out);
            proof {
                assert(out@ =~= old(out)@ + tree_seq(*t));
            }
        },
    }
}

/// Inserts into the tree, rebalancing along the way back up.  Reports
/// whether the value was new; the height grows by at most one.
fn insert_tree(t: AvlTree, value: u64) -> (res: (AvlTree, bool))
    requires
        wf_tree(t),
        spec_height(t) + 2 <= usize::MAX,
    ensures
        wf_tree(res.0),
        res.1 == !tree_set(t).contains(value),
        res.1 ==> tree_set(res.0) == tree_set(t).insert(value) && spec_height(t) <= spec_height(
            res.0,
        ) <= spec_height(t) + 1,
        !res.1 ==> res.0 == t,
    decreases t,
{
    let ghost t0 = t;
    match t {
        None => {
            let n = AvlNode { value, height: 1, left: None, right: None };
            let r = Some(Box::new(n));
            proof {
                assert(tree_set(r) =~= tree_set(t0).insert(value));
            }
            (r, true)
        },
        Some(mut n) => {
            let ghost n0 = *n;
            if value == n.value {
                proof {
                    assert(tree_set(t0).contains(value));
                    assert(Some(n) == t0);
                }
                (Some(n), false)
            } else if value < n.value {
                let mut lt: AvlTree = None;
                core::mem::swap(&mut n.left, &mut lt);
                proof {
                    assert(tree_set(t0).contains(value) == tree_set(n0.left).contains(value)) by {
                        if tree_set(n0.right).contains(value) {
                            assert(value > n0.value);
                        }
                    }
                }
                let (nl, inserted) = insert_tree(lt, value);
                n.left = nl;
                if inserted {
                    proof {
                        lemma_stored_is_spec(n.left);
                        lemma_stored_is_spec(n.right);
                    }
                    n.update_height();
                    proof {
                        assert(super::node::node_bst(*n)) by {
                            assert forall|x: u64| tree_set(n.left).contains(x) implies x
                                < n.value by {
                                if x != value {
                                    assert(tree_set(n0.left).contains(x));
                                }
                            }
                        }
                        assert(super::node::node_height(*n) + 1 <= usize::MAX);
                    }
                    let reb = n.rebalance();
                    proof {
                        assert(reb is Ok);
                        assert(tree_set(Some(n)) =~= tree_set(t0).insert(value));
                        assert(spec_height(t0) <= spec_height(Some(n)) <= spec_height(t0) + 1) by {
                            let hl = spec_height(n0.left);
                            let hr = spec_height(n0.right);
                            assert(spec_height(t0) == 1 + nat_max(hl, hr));
                        }
                    }
                    (Some(n), true)
                } else {
                    proof {
                        assert(*n == n0);
                        assert(Some(n) == t0);
                    }
                    (Some(n), false)
                }
            } else {
                let mut rt: AvlTree = None;
                core::mem::swap(&mut n.right, &mut rt);
                proof {
                    assert(tree_set(t0).contains(value) == tree_set(n0.right).contains(value)) by {
                        if tree_set(n0.left).contains(value) {
                            assert(value < n0.value);
                        }
                    }
                }
                let (nr, inserted) = insert_tree(rt, value);
                n.right = nr;
                if inserted {
                    proof {
                        lemma_stored_is_spec(n.left);
                        lemma_stored_is_spec(n.right);
                    }
                    n.update_height();
                    proof {
                        assert(super::node::node_bst(*n)) by {
                            assert forall|x: u64| tree_set(n.right).contains(x) implies x
                                > n.value by {
                                if x != value {
                                    assert(tree_set(n0.right).contains(x));
                                }
                            }
                        }
                        assert(super::node::node_height(*n) + 1 <= usize::MAX);
                    }
                    let reb = n.rebalance();
                    proof {
                        assert(reb is Ok);
                        assert(tree_set(Some(n)) =~= tree_set(t0).insert(value));
                        assert(spec_height(t0) <= spec_height(Some(n)) <= spec_height(t0) + 1) by {
                            let hl = spec_height(n0.left);
                            let hr = spec_height(n0.right);
                            assert(spec_height(t0) == 1 + nat_max(hl, hr));
                        }
                    }
                    (Some(n), true)
                } else {
                    proof {
                        assert(*n == n0);
                        assert(Some(n) == t0);
                    }
                    (Some(n), false)
                }
            }
        },
    }
}

/// Removes and returns the smallest element of a nonempty tree; the
/// height shrinks by at most one.
fn remove_min(t: AvlTree) -> (res: (AvlTree, u64))
    requires
        wf_tree(t),
        t is Some,
        spec_height(t) < usize::MAX,
    ensures
        wf_tree(res.0),
        tree_set(t).contains(res.1),
        forall|x: u64| tree_set(t).contains(x) ==> res.1 <= x,
        tree_set(res.0) == tree_set(t).remove(res.1),
        spec_height(t) - 1 <= spec_height(res.0) <= spec_height(t),
    decreases t,
{
    let ghost t0 = t;
    let mut n = match t {
        Some(n) => n,
        None => vstd::pervasive::unreached(),
    };
    let ghost n0 = *n;
    let has_left = n.left.is_some();
    if has_left {
        let mut lt: AvlTree = None;
        core::mem::swap(&mut n.left, &mut lt);
        let (nl, min) = remove_min(lt);
        n.left = nl;
        proof {
            lemma_stored_is_spec(n.left);
            lemma_stored_is_spec(n.right);
        }
        n.update_height();
        proof {
            assert(super::node::node_bst(*n)) by {
                assert forall|x: u64| tree_set(n.left).contains(x) implies x < n.value by {
                    assert(tree_set(n0.left).contains(x));
                }
            }
            assert(super::node::node_height(*n) + 1 <= usize::MAX);
        }
        let reb = n.rebalance();
        proof {
            assert(reb is Ok);
            assert(tree_set(Some(n)) =~= tree_set(t0).remove(min)) by {
                assert(tree_set(n0.left).contains(min));
                assert(min < n0.value);
            }
            assert(tree_set(t0).contains(min)) by {
                assert(tree_set(n0.left).contains(min));
            }
            assert forall|x: u64| tree_set(t0).contains(x) implies min <= x by {
                if tree_set(n0.left).contains(x) {
                } else if x == n0.value {
                    assert(tree_set(n0.left).contains(min));
                } else {
                    assert(tree_set(n0.right).contains(x));
                    assert(tree_set(n0.left).contains(min));
                }
            }
            assert(spec_height(t0) - 1 <= spec_height(Some(n)) <= spec_height(t0)) by {
                let hl = spec_height(n0.left);
                let hr = spec_height(n0.right);
                assert(spec_height(t0) == 1 + nat_max(hl, hr));
            }
        }
        (Some(n), min)
    } else {
        let value = n.value;
        let mut rt: AvlTree = None;
        core::mem::swap(&mut n.right, &mut rt);
        proof {
            assert(tree_set(rt) =~= tree_set(t0).remove(value)) by {
                assert(tree_set(n0.left) =~= Set::<u64>::empty());
                assert(!tree_set(n0.right).contains(value));
            }
            assert forall|x: u64| tree_set(t0).contains(x) implies value <= x by {
                if x != value {
                    assert(tree_set(n0.right).contains(x));
                }
            }
        }
        (rt, value)
    }
}

/// Deletes from the tree, rebalancing along the way back up.  Reports
/// whether the value was present; the height shrinks by at most one.
fn delete_tree(t: AvlTree, value: u64) -> (res: (AvlTree, bool))
    requires
        wf_tree(t),
        spec_height(t) < usize::MAX,
    ensures
        wf_tree(res.0),
        res.1 == tree_set(t).contains(value),
        res.1 ==> tree_set(res.0) == tree_set(t).remove(value) && spec_height(t) - 1
            <= spec_height(res.0) <= spec_height(t),
        !res.1 ==> res.0 == t,
    decreases t,
{
    let ghost t0 = t;
    match t {
        None => (None, false),
        Some(mut n) => {
            let ghost n0 = *n;
            if value < n.value {
                let mut lt: AvlTree = None;
                core::mem::swap(&mut n.left, &mut lt);
                proof {
                    assert(tree_set(t0).contains(value) == tree_set(n0.left).contains(value)) by {
                        if tree_set(n0.right).contains(value) {
                            assert(value > n0.value);
                        }
                    }
                }
                let (nl, removed) = delete_tree(lt, value);
                n.left = nl;
                if removed {
                    proof {
                        lemma_stored_is_spec(n.left);
                        lemma_stored_is_spec(n.right);
                    }
                    n.update_height();
                    proof {
                        assert(super::node::node_bst(*n)) by {
                            assert forall|x: u64| tree_set(n.left).contains(x) implies x
                                < n.value by {
                                assert(tree_set(n0.left).contains(x));
                            }
                        }
                        assert(super::node::node_height(*n) + 1 <= usize::MAX);
                    }
                    let reb = n.rebalance();
                    proof {
                        assert(reb is Ok);
                        assert(tree_set(Some(n)) =~= tree_set(t0).remove(value));
                        assert(spec_height(t0) - 1 <= spec_height(Some(n)) <= spec_height(t0)) by {
                            let hl = spec_height(n0.left);
                            let hr = spec_height(n0.right);
                            assert(spec_height(t0) == 1 + nat_max(hl, hr));
                        }
                    }
                    (Some(n), true)
                } else {
                    proof {
                        assert(*n == n0);
                        assert(Some(n) == t0);
                    }
                    (Some(n), false)
                }
            } else if value > n.value {
                let mut rt: AvlTree = None;
                core::mem::swap(&mut n.right, &mut rt);
                proof {
                    assert(tree_set(t0).contains(value) == tree_set(n0.right).contains(value)) by {
                        if tree_set(n0.left).contains(value) {
                            assert(value < n0.value);
                        }
                    }
                }
                let (nr, removed) = delete_tree(rt, value);
                n.right = nr;
                if removed {
                    proof {
                        lemma_stored_is_spec(n.left);
                        lemma_stored_is_spec(n.right);
                    }
                    n.update_height();
                    proof {
                        assert(super::node::node_bst(*n)) by {
                            assert forall|x: u64| tree_set(n.right).contains(x) implies x
                                > n.value by {
                                assert(tree_set(n0.right).contains(x));
                            }
                        }
                        assert(super::node::node_height(*n) + 1 <= usize::MAX);
                    }
                    let reb = n.rebalance();
                    proof {
                        assert(reb is Ok);
                        assert(tree_set(Some(n)) =~= tree_set(t0).remove(value));
                        assert(spec_height(t0) - 1 <= spec_height(Some(n)) <= spec_height(t0)) by {
                            let hl = spec_height(n0.left);
                            let hr = spec_height(n0.right);
                            assert(spec_height(t0) == 1 + nat_max(hl, hr));
                        }
                    }
                    (Some(n), true)
                } else {
                    proof {
                        assert(*n == n0);
                        assert(Some(n) == t0);
                    }
                    (Some(n), false)
                }
            } else {
                proof {
                    assert(tree_set(t0).contains(value));
                    assert(!tree_set(n0.left).contains(value));
                    assert(!tree_set(n0.right).contains(value));
                }
                let left_present = n.left.is_some();
                let right_present = n.right.is_some();
                if !left_present {
                    let mut rt: AvlTree = None;
                    core::mem::swap(&mut n.right, &mut rt);
                    proof {
                        assert(tree_set(rt) =~= tree_set(t0).remove(value)) by {
                            assert(tree_set(n0.left) =~= Set::<u64>::empty());
                        }
                    }
                    (rt, true)
                } else if !right_present {
                    let mut lt: AvlTree = None;
                    core::mem::swap(&mut n.left, &mut lt);
                    proof {
                        assert(tree_set(lt) =~= tree_set(t0).remove(value)) by {
                            assert(tree_set(n0.right) =~= Set::<u64>::empty());
                        }
                    }
                    (lt, true)
                } else {
                    let mut rt: AvlTree = None;
                    core::mem::swap(&mut n.right, &mut rt);
                    let (nrt, min) = remove_min(rt);
                    n.value = min;
                    n.right = nrt;
                    proof {
                        lemma_stored_is_spec(n.left);
                        lemma_stored_is_spec(n.right);
                    }
                    n.update_height();
                    proof {
                        assert(super::node::node_bst(*n)) by {
                            assert(tree_set(n0.right).contains(min));
                            assert(min > n0.value);
                            assert forall|x: u64| tree_set(n.left).contains(x) implies x
                                < n.value by {
                                assert(tree_set(n0.left).contains(x));
                                assert(x < n0.value);
                            }
                            assert forall|x: u64| tree_set(n.right).contains(x) implies x
                                > n.value by {
                                assert(tree_set(n0.right).remove(min).contains(x));
                                assert(tree_set(n0.right).contains(x) && x != min);
                            }
                        }
                        assert(super::node::node_height(*n) + 1 <= usize::MAX);
                    }
                    let reb = n.rebalance();
                    proof {
                        assert(reb is Ok);
                        assert(tree_set(Some(n)) =~= tree_set(t0).remove(value)) by {
                            assert(tree_set(n0.right).contains(min));
                            assert(min > n0.value);
                        }
                        assert(spec_height(t0) - 1 <= spec_height(Some(n)) <= spec_height(t0)) by {
                            let hl = spec_height(n0.left);
                            let hr = spec_height(n0.right);
                            assert(spec_height(t0) == 1 + nat_max(hl, hr));
                        }
                    }
                    (Some(n), true)
                }
            }
        },
    }
}

/// A well-formed set satisfies the two AVL shape laws at every node:
/// each stored height is one more than the taller child's height, and
/// the children's heights differ by at most one.
pub proof fn lemma_avl_shape(s: AvlTreeSet)
    requires
        s.wf(),
    ensures
        heights_ok(s.root),
        balanced(s.root),
        is_bst(s.root),
{
}

/// The in-order sequence holds exactly the tree's elements.
pub proof fn lemma_seq_set(t: AvlTree)
    ensures
        forall|x: u64| tree_seq(t).contains(x) <==> tree_set(t).contains(x),
    decreases t,
{
    match t {
        None => {
            assert(forall|x: u64| !tree_seq(t).contains(x));
        },
        Some(n) => {
            lemma_seq_set(n.left);
            lemma_seq_set(n.right);
            assert forall|x: u64| tree_seq(t).contains(x) implies tree_set(t).contains(x) by {
                let i = choose|i: int| 0 <= i < tree_seq(t).len() && tree_seq(t)[i] == x;
                let ls = tree_seq(n.left);
                let rs = tree_seq(n.right);
                if i < ls.len() {
                    assert(ls.contains(x));
                } else if i == ls.len() {
                    assert(x == n.value);
                } else {
                    assert(rs[i - ls.len() - 1] == x);
                    assert(rs.contains(x));
                }
            }
            assert forall|x: u64| tree_set(t).contains(x) implies tree_seq(t).contains(x) by {
                let ls = tree_seq(n.left);
                let rs = tree_seq(n.right);
                if tree_set(n.left).contains(x) {
                    let i = choose|i: int| 0 <= i < ls.len() && ls[i] == x;
                    assert(tree_seq(t)[i] == x);
                } else if tree_set(n.right).contains(x) {
                    let i = choose|i: int| 0 <= i < rs.len() && rs[i] == x;
                    assert(tree_seq(t)[ls.len() + 1 + i] == x);
                } else {
                    assert(tree_seq(t)[ls.len() as int] == x);
                }
            }
        },
    }
}

/// In-order iteration of a search tree is strictly ascending.
pub proof fn lemma_inorder_sorted(t: AvlTree)
    requires
        is_bst(t),
    ensures
        forall|i: int, j: int|
            0 <= i < j < tree_seq(t).len() ==> #[trigger] tree_seq(t)[i] < #[trigger] tree_seq(
                t,
            )[j],
    decreases t,
{
    match t {
        None => {},
        Some(n) => {
            lemma_inorder_sorted(n.left);
            lemma_inorder_sorted(n.right);
            lemma_seq_set(n.left);
            lemma_seq_set(n.right);
            let ls = tree_seq(n.left);
            let rs = tree_seq(n.right);
            assert forall|i: int, j: int| 0 <= i < j < tree_seq(t).len() implies tree_seq(t)[i]
                < tree_seq(t)[j] by {
                let a = tree_seq(t)[i];
                let b = tree_seq(t)[j];
                if i < ls.len() {
                    assert(ls[i] == a);
                    assert(ls.contains(a));
                    assert(tree_set(n.left).contains(a));
                }
                if j < ls.len() {
                    assert(ls[j] == b);
                }
                if i > ls.len() {
                    assert(rs[i - ls.len() - 1] == a);
                    assert(rs.contains(a));
                    assert(tree_set(n.right).contains(a));
                }
                if j > ls.len() {
                    assert(rs[j - ls.len() - 1] == b);
                    assert(rs.contains(b));
                    assert(tree_set(n.right).contains(b));
                }
            }
        },
    }
}

/// Two strictly ascending sequences over the same element set are equal.
pub proof fn lemma_sorted_seqs_equal(a: Seq<u64>, b: Seq<u64>)
    requires
        forall|i: int, j: int| 0 <= i < j < a.len() ==> #[trigger] a[i] < #[trigger] a[j],
        forall|i: int, j: int| 0 <= i < j < b.len() ==> #[trigger] b[i] < #[trigger] b[j],
        a.to_set() == b.to_set(),
    ensures
        a == b,
    decreases a.len(),
{
    broadcast use vstd::seq_lib::group_seq_properties;

    if a.len() == 0 {
        if b.len() > 0 {
            assert(b.contains(b[0]));
            assert(a.to_set().contains(b[0]));
        }
        assert(a =~= b);
    } else {
        assert(a.contains(a[0]));
        assert(b.to_set().contains(a[0]));
        if b.len() == 0 {
            assert(!b.to_set().contains(a[0]));
        }
        // the heads are both the minimum of the shared set
        assert(b.contains(a[0]));
        assert(b.to_set().contains(a[0]));
        assert(b.contains(b[0]));
        assert(a.to_set().contains(b[0]));
        assert(a.contains(b[0]));
        let ai = choose|i: int| 0 <= i < b.len() && b[i] == a[0];
        let bi = choose|i: int| 0 <= i < a.len() && a[i] == b[0];
        assert(a[0] <= b[0]) by {
            if bi > 0 {
                assert(a[0] < a[bi]);
            }
        }
        assert(b[0] <= a[0]) by {
            if ai > 0 {
                assert(b[0] < b[ai]);
            }
        }
        assert(a[0] == b[0]);
        let a1 = a.drop_first();
        let b1 = b.drop_first();
        assert(a1.to_set() == b1.to_set()) by {
            assert forall|x: u64| a1.to_set().contains(x) implies b1.to_set().contains(x) by {
                let i = choose|i: int| 0 <= i < a1.len() && a1[i] == x;
                assert(a[i + 1] == x);
                assert(a[0] < x);
                assert(a.contains(x));
                assert(b.to_set().contains(x));
                let j = choose|j: int| 0 <= j < b.len() && b[j] == x;
                assert(j != 0);
                assert(b1[j - 1] == x);
                assert(b1.contains(x));
            }
            assert forall|x: u64| b1.to_set().contains(x) implies a1.to_set().contains(x) by {
                let i = choose|i: int| 0 <= i < b1.len() && b1[i] == x;
                assert(b[i + 1] == x);
                assert(b[0] < x);
                assert(b.contains(x));
                assert(a.to_set().contains(x));
                let j = choose|j: int| 0 <= j < a.len() && a[j] == x;
                assert(j != 0);
                assert(a1[j - 1] == x);
                assert(a1.contains(x));
            }
            assert(a1.to_set() =~= b1.to_set());
        }
        assert(forall|i: int, j: int|
            0 <= i < j < a1.len() ==> #[trigger] a1[i] < #[trigger] a1[j]) by {
            assert forall|i: int, j: int|
                0 <= i < j < a1.len() implies #[trigger] a1[i] < #[trigger] a1[j] by {
                assert(a1[i] == a[i + 1] && a1[j] == a[j + 1]);
            }
        }
        assert(forall|i: int, j: int|
            0 <= i < j < b1.len() ==> #[trigger] b1[i] < #[trigger] b1[j]) by {
            assert forall|i: int, j: int|
                0 <= i < j < b1.len() implies #[trigger] b1[i] < #[trigger] b1[j] by {
                assert(b1[i] == b[i + 1] && b1[j] == b[j + 1]);
            }
        }
        lemma_sorted_seqs_equal(a1, b1);
        assert(a.len() == b.len());
        assert forall|i: int| 0 <= i < a.len() implies a[i] == b[i] by {
            if i > 0 {
                assert(a1[i - 1] == b1[i - 1]);
                assert(a[i] == a1[i - 1]);
                assert(b[i] == b1[i - 1]);
            }
        }
        assert(a =~= b);
    }
}

/// The in-order sequence of a well-formed set is determined by its
/// element set alone: any order of insertions yields the one ascending
/// sequence of the stored elements.
pub proof fn lemma_iter_of_set(s1: AvlTreeSet, s2: AvlTreeSet)
    requires
        s1.wf(),
        s2.wf(),
        s1.to_set() == s2.to_set(),
    ensures
        s1.to_seq() == s2.to_seq(),
{
    lemma_inorder_sorted(s1.root);
    lemma_inorder_sorted(s2.root);
    lemma_seq_set(s1.root);
    lemma_seq_set(s2.root);
    assert(s1.to_seq().to_set() == s2.to_seq().to_set()) by {
        broadcast use vstd::seq_lib::group_seq_properties;

        assert forall|x: u64| s1.to_seq().to_set().contains(x) implies s2.to_seq().to_set().contains(
            x,
        ) by {
            assert(s1.to_seq().contains(x));
            assert(tree_set(s1.root).contains(x));
            assert(s2.to_seq().contains(x));
        }
        assert forall|x: u64| s2.to_seq().to_set().contains(x) implies s1.to_seq().to_set().contains(
            x,
        ) by {
            assert(s2.to_seq().contains(x));
            assert(tree_set(s2.root).contains(x));
            assert(s1.to_seq().contains(x));
        }
        assert(s1.to_seq().to_set() =~= s2.to_seq().to_set());
    }
    lemma_sorted_seqs_equal(s1.to_seq(), s2.to_seq());
}

} // verus!
