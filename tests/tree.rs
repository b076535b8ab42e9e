use crop::node::{Inode, Lnode, Node};
use crop::summary::Count;
use crop::tree::Tree;
use std::sync::Arc;

#[test]
fn easy() {
    let tree = Tree::<4, usize>::from_leaves((0..20).collect());
    assert_eq!(Count(190), *tree.summary());
}

#[test]
fn pretty_print() {
    let _tree = Tree::<2, usize>::from_leaves((0..10).collect());
}

#[test]
fn slice() {
    let tree = Tree::<2, usize>::from_leaves((0..10).collect());
    let slice = tree.slice(4..6);
    assert_eq!(Count(3), *slice.summary());
}

#[test]
fn leaves_come_back_in_order() {
    let tree = Tree::<4, usize>::from_leaves((0..50).collect());
    let leaves: Vec<usize> = tree.leaves().into_iter().copied().collect();
    assert_eq!(leaves, (0..50).collect::<Vec<usize>>());
    assert!(tree.assert_invariants());
}

#[test]
fn single_leaf_tree() {
    let tree = Tree::<4, usize>::from_leaves(vec![7]);
    assert_eq!(tree.depth(), 0);
    assert_eq!(Count(7), *tree.summary());
    let leaves: Vec<usize> = tree.leaves().into_iter().copied().collect();
    assert_eq!(leaves, vec![7]);
}

#[test]
fn summary_is_sum_of_slice_leaves() {
    let tree = Tree::<4, usize>::from_leaves((1..30).collect());
    let slice = tree.slice(10..200);
    let sum: usize = slice.leaves().into_iter().copied().sum();
    assert_eq!(Count(sum), *slice.summary());
}

#[test]
fn empty_range_gives_empty_slice() {
    let tree = Tree::<4, usize>::from_leaves((0..10).collect());
    let slice = tree.slice(5..5);
    assert_eq!(Count(0), *slice.summary());
    assert!(slice.leaves().is_empty());
}

#[test]
fn whole_range_slice_keeps_every_nonempty_leaf() {
    let tree = Tree::<4, usize>::from_leaves((1..20).collect());
    let total = tree.summary().0;
    let slice = tree.slice(0..total);
    let leaves: Vec<usize> = slice.leaves().into_iter().copied().collect();
    assert_eq!(leaves, (1..20).collect::<Vec<usize>>());
    assert_eq!(*slice.summary(), *tree.summary());
}

fn leaf(n: usize) -> Arc<Node<4, usize>> {
    Arc::new(Node::Leaf(Lnode::from_value(n)))
}

#[test]
fn inserting_children_that_overflow() {
    let mut inode = Inode::<4, usize>::from_children(vec![leaf(1), leaf(2), leaf(3), leaf(4)]);
    let extra = inode.insert_children(2, vec![leaf(10), leaf(20), leaf(30)]).unwrap();
    assert!(inode.len() >= 2 && inode.len() <= 4);
    let mut total = Node::Internal(inode).summarize().0;
    for node in &extra {
        total += node.summarize().0;
    }
    assert_eq!(total, 70);
}

#[test]
fn inserting_children_that_fit() {
    let mut inode = Inode::<4, usize>::from_children(vec![leaf(1), leaf(2)]);
    assert!(inode.insert_children(1, vec![leaf(5)]).is_none());
    assert_eq!(inode.len(), 3);
    assert_eq!(inode.leaf_count(), 3);
    assert_eq!(Count(8), *inode.summary());
}

#[test]
fn draining_children() {
    let mut inode = Inode::<4, usize>::from_children(vec![leaf(1), leaf(2), leaf(3), leaf(4)]);
    let out = inode.drain(1, 3);
    assert_eq!(out.len(), 2);
    assert_eq!(inode.len(), 2);
    assert_eq!(Count(5), *inode.summary());
    assert_eq!(inode.leaf_count(), 2);
}

#[test]
fn balancing_moves_the_fewest_children() {
    let mut short = Inode::<4, usize>::from_children(vec![leaf(1)]);
    let mut long = Inode::<4, usize>::from_children(vec![leaf(2), leaf(3), leaf(4), leaf(5)]);
    short.balance(&mut long);
    assert_eq!(short.len(), 2);
    assert_eq!(long.len(), 3);
    assert_eq!(Count(3), *short.summary());
    assert_eq!(Count(12), *long.summary());
}

#[test]
fn balancing_merges_what_fits() {
    let mut left = Inode::<4, usize>::from_children(vec![leaf(1)]);
    let mut right = Inode::<4, usize>::from_children(vec![leaf(2), leaf(3)]);
    left.balance(&mut right);
    assert_eq!(left.len(), 3);
    assert!(right.is_empty());
}

#[test]
fn few_leaves_sit_right_under_the_root() {
    let tree = Tree::<4, usize>::from_leaves(vec![1, 2, 3, 4]);
    assert_eq!(tree.depth(), 1);
    let tree = Tree::<4, usize>::from_leaves(vec![1, 2, 3, 4, 5]);
    assert_eq!(tree.depth(), 2);
}
