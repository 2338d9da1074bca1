use minikv::avl_tree::node::{AvlNode, AvlTree};
use minikv::avl_tree::set::{AvlTreeSet, DeleteError, InsertError};

fn build(values: &[u64]) -> AvlTreeSet {
    let mut set = AvlTreeSet::new();
    for v in values {
        let _ = set.insert(*v);
    }
    set
}

#[test]
fn test_delete() {
    let values = vec![20u64, 10, 30, 5, 15, 25, 35, 3, 13, 33];

    let mut set = build(&values);
    for i in set.iter() {
        println!("{i}->");
    }
    println!("");
    match set.delete(&10) {
        Ok(_) => {
            println!("************deleted**********");
            for i in set.iter() {
                println!("{i}->");
            }
            println!("");
        }
        Err(err) => println!("error occured {:#?}", err),
    }
}

#[test]
fn delete_keeps_order_and_balance() {
    // insert a fixed sequence, delete one value: in-order iteration
    // yields the remaining elements ascending, and every node is
    // balanced with a correct height
    let values = vec![20u64, 10, 30, 5, 15, 25, 35, 3, 13, 33];
    let mut set = build(&values);
    assert!(set.delete(&10).is_ok());
    assert_eq!(set.iter(), vec![3, 5, 13, 15, 20, 25, 30, 33, 35]);
    check_invariants(&set.root);
}

fn height(t: &AvlTree) -> usize {
    match t {
        None => 0,
        Some(n) => n.height,
    }
}

fn check_invariants(t: &AvlTree) {
    if let Some(n) = t {
        let lh = height(&n.left);
        let rh = height(&n.right);
        // every node's height is one more than its taller child's
        assert_eq!(n.height, 1 + lh.max(rh));
        // and the children differ in height by at most one
        assert!(lh.max(rh) - lh.min(rh) <= 1);
        if let Some(l) = &n.left {
            assert!(l.value < n.value);
        }
        if let Some(r) = &n.right {
            assert!(r.value > n.value);
        }
        check_invariants(&n.left);
        check_invariants(&n.right);
    }
}

#[test]
fn insert_iterates_sorted_unique() {
    // inserting any values then iterating yields the sorted set
    let set = build(&[9, 2, 7, 2, 4, 9, 1, 0, 3]);
    assert_eq!(set.iter(), vec![0, 1, 2, 3, 4, 7, 9]);
    check_invariants(&set.root);
}

#[test]
fn insert_duplicate_is_reported() {
    let mut set = AvlTreeSet::new();
    assert!(set.insert(5).is_ok());
    assert_eq!(set.insert(5), Err(InsertError::AlreadyExistError));
    assert_eq!(set.iter(), vec![5]);
}

#[test]
fn delete_missing_is_reported() {
    let mut set = build(&[1, 2, 3]);
    assert_eq!(set.delete(&9), Err(DeleteError::NodeNotFound));
    assert_eq!(set.iter(), vec![1, 2, 3]);
}

#[test]
fn invariants_under_many_operations() {
    let mut set = AvlTreeSet::new();
    // an ascending run is the classic worst case for an unbalanced tree
    for v in 0..200u64 {
        assert!(set.insert(v).is_ok());
        check_invariants(&set.root);
    }
    assert!(height(&set.root) <= 9);
    for v in (0..200u64).step_by(3) {
        assert!(set.delete(&v).is_ok());
        check_invariants(&set.root);
    }
    let remaining = set.iter();
    for w in remaining.windows(2) {
        assert!(w[0] < w[1]);
    }
    assert_eq!(remaining.len(), 200 - 67);
}

#[test]
fn rotations_preserve_order() {
    let mut n = AvlNode {
        value: 10,
        height: 3,
        left: Some(Box::new(AvlNode {
            value: 5,
            height: 2,
            left: Some(Box::new(AvlNode {
                value: 2,
                height: 1,
                left: None,
                right: None,
            })),
            right: None,
        })),
        right: Some(Box::new(AvlNode {
            value: 20,
            height: 1,
            left: None,
            right: None,
        })),
    };
    assert!(n.rotate_right().is_ok());
    assert_eq!(n.value, 5);
    let tree = Some(Box::new(n));
    let mut out = Vec::new();
    inorder(&tree, &mut out);
    assert_eq!(out, vec![2, 5, 10, 20]);
}

fn inorder(t: &AvlTree, out: &mut Vec<u64>) {
    if let Some(n) = t {
        inorder(&n.left, out);
        out.push(n.value);
        inorder(&n.right, out);
    }
}
