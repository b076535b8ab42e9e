use std::sync::Arc;
use vstd::prelude::*;

use crate::node::{
    all_filled, all_wf_at, leaves_of, lemma_leaves_of_concat, lemma_leaves_of_single, share, Inode,
    Lnode, Node,
};
use crate::slice::{edges_cuttable, TreeSlice};
use crate::summary::{
    fits_leaves, lemma_fits_leaves_sub, rebalanced, total, BalancedLeaf, Leaf, Metric,
};

verus! {

broadcast use {vstd::std_specs::vec::group_vec_axioms, vstd::seq::group_seq_axioms};

/// A B-tree of leaves whose inodes hold at most `FANOUT` children, with the
/// summary of every subtree cached.
pub struct Tree<const FANOUT: usize, L: Leaf> {
    root: Arc<Node<FANOUT, L>>,
}

impl<const FANOUT: usize, L: Leaf> View for Tree<FANOUT, L> {
    type V = Seq<L>;

    /// The leaves of the tree, left to right.
    closed spec fn view(&self) -> Seq<L> {
        self.root.leaves()
    }
}

/// The values that a sequence of references points at.
pub open spec fn derefs<L>(s: Seq<&L>) -> Seq<L> {
    s.map_values(|r: &L| *r)
}

pub proof fn lemma_derefs_push<L>(s: Seq<&L>, x: &L)
    ensures
        derefs(s.push(x)) == derefs(s).push(*x),
{
    assert(derefs(s.push(x)) =~= derefs(s).push(*x));
}

/// Whether every inode below `node` holds at least `N / 2` children.
pub(crate) fn check_filled<const N: usize, L: Leaf>(node: &Node<N, L>) -> (r: bool)
    requires
        node.wf(),
    ensures
        r == node.filled(),
    decreases node.depth(),
{
    match node {
        Node::Leaf(_) => true,
        Node::Internal(i) => {
            let mut j: usize = 0;
            while j < i.children.len()
                invariant
                    node.wf(),
                    *node == Node::Internal(*i),
                    j <= i.children@.len(),
                    forall|q: int|
                        0 <= q < j ==> (#[trigger] i.children@[q]).filled() && (
                        i.children@[q].spec_is_internal() ==> i.children@[q].spec_len() >= N / 2),
                decreases i.children@.len() - j,
            {
                let child: &Node<N, L> = &*i.children[j];
                let ok_len = match child {
                    Node::Internal(c) => c.children.len() >= N / 2,
                    Node::Leaf(_) => true,
                };
                if !ok_len || !check_filled(child) {
                    return false;
                }
                j = j + 1;
            }
            true
        },
    }
}

impl<const N: usize, L: Leaf> Inode<N, L> {
    /// Checks the bounds on the number of children of this inode and of
    /// every inode below it: `N / 2` to `N` children each.
    pub fn assert_invariants(&self) -> (r: bool)
        requires
            self.wf(),
            self.children@.len() >= 1,
        ensures
            r == (N / 2 <= self.children@.len() <= N && Node::Internal(*self).filled()),
    {
        let len = self.children.len();
        if len < N / 2 || len > N {
            return false;
        }
        let node = Node::Internal(self.duplicate());
        proof {
            assert(node.leaves() == Node::Internal(*self).leaves());
            assert(node.filled() == Node::Internal(*self).filled());
        }
        check_filled(&node)
    }
}

/// Appends the leaves of `node` from index `from` up to `to` to `out`,
/// left to right, descending only into the subtrees that hold some.
#[verifier::rlimit(100)]
pub(crate) fn collect_range<'a, const N: usize, L: Leaf>(
    node: &'a Node<N, L>,
    from: usize,
    to: usize,
    out: &mut Vec<&'a L>,
)
    requires
        node.wf(),
        from <= to <= node.leaves().len(),
    ensures
        derefs(final(out)@) == derefs(old(out)@) + node.leaves().subrange(from as int, to as int),
    decreases node.depth(),
{
    proof {
        node.lemma_wf();
    }
    match node {
        Node::Leaf(l) => {
            if from < to {
                proof {
                    lemma_derefs_push(out@, &l.value);
                }
                out.push(&l.value);
            }
            proof {
                assert(derefs(final(out)@) =~= derefs(old(out)@) + node.leaves().subrange(
                    from as int,
                    to as int,
                ));
            }
        },
        Node::Internal(i) => {
            let ghost start = derefs(out@);
            let ghost cs = i.children@;
            let ghost all = node.leaves();
            let mut acc: usize = 0;
            let mut j: usize = 0;
            proof {
                assert(cs.subrange(0, 0) =~= Seq::<Arc<Node<N, L>>>::empty());
                assert(leaves_of(Seq::<Arc<Node<N, L>>>::empty()) =~= Seq::<L>::empty());
                assert(derefs(out@) =~= start + all.subrange(from as int, from as int));
            }
            while j < i.children.len()
                invariant
                    node.wf(),
                    *node == Node::Internal(*i),
                    cs == i.children@,
                    all == leaves_of(cs),
                    from <= to <= all.len(),
                    j <= cs.len(),
                    acc == leaves_of(cs.subrange(0, j as int)).len(),
                    leaves_of(cs.subrange(0, j as int)) == all.subrange(0, acc as int),
                    acc <= all.len(),
                    derefs(out@) == start + all.subrange(
                        from as int,
                        if acc < from {
                            from as int
                        } else if acc < to {
                            acc as int
                        } else {
                            to as int
                        },
                    ),
                decreases cs.len() - j,
            {
                let child: &'a Node<N, L> = &*i.children[j];
                let ghost pre = leaves_of(cs.subrange(0, j as int));
                let ghost cl = child.leaves();
                proof {
                    child.lemma_wf();
                    let next = cs.subrange(0, j as int + 1);
                    assert(next.drop_last() =~= cs.subrange(0, j as int));
                    assert(next.last() == cs[j as int]);
                    assert(leaves_of(next) == pre + cl);
                    assert(cs =~= next + cs.subrange(j as int + 1, cs.len() as int));
                    lemma_leaves_of_concat(next, cs.subrange(j as int + 1, cs.len() as int));
                    assert(all.subrange(0, (pre + cl).len() as int) =~= pre + cl);
                }
                let count = child.leaf_count();
                if acc < to {
                    let lo = if from > acc { from - acc } else { 0 };
                    let hi = if to - acc < count { to - acc } else { count };
                    if lo < hi {
                        collect_range(child, lo, hi, out);
                        proof {
                            assert(all.subrange(acc + lo, acc + hi) =~= cl.subrange(lo as int, hi as int));
                            assert(derefs(out@) =~= start + all.subrange(
                                from as int,
                                if acc + count < to { (acc + count) as int } else { to as int },
                            ));
                        }
                    } else {
                        proof {
                            assert(derefs(out@) =~= start + all.subrange(
                                from as int,
                                if acc + count < from { from as int } else if acc + count < to { (acc + count) as int } else { to as int },
                            ));
                        }
                    }
                }
                acc = acc + count;
                j = j + 1;
                proof {
                    assert(leaves_of(cs.subrange(0, j as int)) == pre + cl);
                }
            }
            proof {
                assert(cs.subrange(0, j as int) =~= cs);
                assert(derefs(out@) =~= start + all.subrange(from as int, to as int));
            }
        },
    }
}

/// Appends the leaves below `node` to `out`, left to right.
fn collect_leaves<'a, const N: usize, L: Leaf>(node: &'a Node<N, L>, out: &mut Vec<&'a L>)
    requires
        node.wf(),
    ensures
        derefs(final(out)@) == derefs(old(out)@) + node.leaves(),
    decreases node.depth(),
{
    match node {
        Node::Leaf(l) => {
            out.push(&l.value);
            proof {
                assert(derefs(final(out)@) =~= derefs(old(out)@) + node.leaves());
            }
        },
        Node::Internal(i) => {
            let ghost start = derefs(out@);
            let mut j: usize = 0;
            while j < i.children.len()
                invariant
                    j <= i.children@.len(),
                    node.wf(),
                    *node == Node::Internal(*i),
                    derefs(out@) == start + leaves_of(i.children@.subrange(0, j as int)),
                decreases i.children@.len() - j,
            {
                let child: &'a Node<N, L> = &*i.children[j];
                proof {
                    let s = i.children@.subrange(0, j as int + 1);
                    assert(s.drop_last() =~= i.children@.subrange(0, j as int));
                    assert(s.last() == i.children@[j as int]);
                }
                collect_leaves(child, out);
                j = j + 1;
                proof {
                    assert(derefs(out@) =~= start + leaves_of(i.children@.subrange(0, j as int)));
                }
            }
            proof {
                assert(i.children@.subrange(0, j as int) =~= i.children@);
            }
        },
    }
}

impl<const FANOUT: usize, L: Leaf> Tree<FANOUT, L> {
    /// The structural invariants of the tree: depths agree, cached
    /// summaries and leaf counts are exact, no inode is empty or holds
    /// more than `FANOUT` children.
    pub closed spec fn wf(&self) -> bool {
        &&& FANOUT >= 2
        &&& self.root.wf()
    }

    /// Every inode but the root holds at least `FANOUT / 2` children, and
    /// a root inode holds at least two.
    pub closed spec fn filled(&self) -> bool {
        &&& self.root.filled()
        &&& self.root.spec_is_internal() ==> self.root.spec_len() >= 2
    }

    /// How many inode levels stand above the leaves.
    pub closed spec fn spec_depth(&self) -> int {
        self.root.depth()
    }

    /// A tree whose leaves are `leaves`, in order.
    #[verifier::rlimit(100)]
    pub fn from_leaves(leaves: Vec<L>) -> (r: Self)
        requires
            FANOUT >= 2,
            leaves@.len() >= 1,
            fits_leaves(leaves@),
        ensures
            r.wf(),
            r.filled(),
            r@ == leaves@,
            leaves@.len() == 1 ==> r.spec_depth() == 0,
            2 <= leaves@.len() <= FANOUT ==> r.spec_depth() == 1,
            leaves@.len() >= 2 ==> 2 * crate::node::power((FANOUT / 2) as nat, (r.spec_depth() - 1) as nat)
                <= leaves@.len(),
    {
        let ghost s = leaves@;
        let mut rest = leaves;
        let mut reversed: Vec<Arc<Node<FANOUT, L>>> = Vec::new();
        while rest.len() > 0
            invariant
                rest@.len() <= s.len(),
                rest@ == s.subrange(0, rest@.len() as int),
                reversed@.len() == s.len() - rest@.len(),
                forall|j: int|
                    0 <= j < reversed@.len() ==> (#[trigger] reversed@[j]).wf()
                        && reversed@[j].depth() == 0 && reversed@[j].filled()
                        && reversed@[j].leaves() == seq![s[s.len() - 1 - j]],
                fits_leaves(s),
            decreases rest@.len(),
        {
            let value = rest.pop().unwrap();
            proof {
                let k = rest@.len() as int;
                assert(value == s[k]);
                assert(s =~= s.subrange(0, k) + seq![value] + s.subrange(k + 1, s.len() as int));
                lemma_fits_leaves_sub(s.subrange(0, k), seq![value], s.subrange(k + 1, s.len() as int));
                crate::summary::lemma_total_single(value);
            }
            let lnode = Lnode::from_value(value);
            reversed.push(Arc::new(Node::Leaf(lnode)));
        }
        let mut nodes: Vec<Arc<Node<FANOUT, L>>> = Vec::new();
        while reversed.len() > 0
            invariant
                reversed@.len() + nodes@.len() == s.len(),
                forall|j: int|
                    0 <= j < reversed@.len() ==> (#[trigger] reversed@[j]).wf()
                        && reversed@[j].depth() == 0 && reversed@[j].filled()
                        && reversed@[j].leaves() == seq![s[s.len() - 1 - j]],
                forall|j: int|
                    0 <= j < nodes@.len() ==> (#[trigger] nodes@[j]).wf() && nodes@[j].depth() == 0
                        && nodes@[j].filled() && !nodes@[j].spec_is_internal(),
                leaves_of(nodes@) == s.subrange(0, nodes@.len() as int),
            decreases reversed@.len(),
        {
            let node = reversed.pop().unwrap();
            let ghost old_nodes = nodes@;
            nodes.push(node);
            proof {
                assert(nodes@.drop_last() =~= old_nodes);
                assert(nodes@.last() == node);
                assert(s.subrange(0, nodes@.len() as int) =~= s.subrange(0, old_nodes.len() as int)
                    + seq![s[old_nodes.len() as int]]);
                assert forall|j: int| 0 <= j < nodes@.len() implies (#[trigger] nodes@[j]).wf()
                    && nodes@[j].depth() == 0 && nodes@[j].filled()
                    && !nodes@[j].spec_is_internal() by {
                    if j < old_nodes.len() {
                        assert(nodes@[j] == old_nodes[j]);
                    } else {
                        assert(nodes@[j] == node);
                    }
                }
            }
        }
        proof {
            assert(s.subrange(0, nodes@.len() as int) =~= s);
        }
        if nodes.len() == 1 {
            let root = nodes.pop().unwrap();
            proof {
                lemma_leaves_of_single(root);
            }
            return Tree { root };
        }
        proof {
            assert(all_wf_at(nodes@, nodes@[0].depth()));
            assert(all_filled(nodes@));
        }
        let inode = Inode::from_nodes(nodes);
        Tree { root: Arc::new(Node::Internal(inode)) }
    }

    /// A second handle on the same tree; the two share all their nodes.
    pub fn snapshot(&self) -> (r: Self)
        ensures
            r@ == self@,
            r.wf() == self.wf(),
            r.filled() == self.filled(),
            r.spec_depth() == self.spec_depth(),
    {
        Tree { root: share(&self.root) }
    }

    /// The root node of the tree.
    pub fn root(&self) -> (r: &Node<FANOUT, L>)
        ensures
            r.leaves() == self@,
            self.wf() ==> r.wf(),
            r.depth() == self.spec_depth(),
    {
        &*self.root
    }

    /// How many inode levels stand above the leaves.
    pub fn depth(&self) -> (r: usize)
        ensures
            r == self.spec_depth(),
    {
        self.root.depth_of()
    }

    /// Checks that every inode but the root holds at least `FANOUT / 2`
    /// children.
    pub fn assert_invariants(&self) -> (r: bool)
        requires
            self.wf(),
        ensures
            r == self.filled(),
    {
        match &*self.root {
            Node::Internal(i) => i.children.len() >= 2 && check_filled(&*self.root),
            Node::Leaf(_) => true,
        }
    }

    /// The summary of the whole tree.
    pub fn summary(&self) -> (r: &L::Summary)
        requires
            self.wf(),
        ensures
            L::counters(*r) == total(self@),
    {
        proof {
            self.root.lemma_wf();
        }
        self.root.summary()
    }

    /// The slice of the tree between the positions `range.start` and
    /// `range.end` of the metric `M`.
    pub fn slice<M: Metric<L>>(&self, range: std::ops::Range<M>) -> (r: TreeSlice<'_, FANOUT, L>)
        requires
            self.wf(),
            range.start.value() <= range.end.value() <= total(self@)[M::index() as int],
            edges_cuttable::<L, M>(self@, range.start.value(), range.end.value()),
        ensures
            r.wf(),
            r.is_slice_of::<M>(self@, range.start.value(), range.end.value()),
            r.start_pos == range.start.value(),
            r.end_pos == range.end.value(),
            r.metric@ == M::index(),
            total(self@)[M::index() as int] == total(r.root.leaves())[M::index() as int],
    {
        proof {
            M::lemma_index();
        }
        let start = range.start.to_usize();
        let end = range.end.to_usize();
        if start == end {
            TreeSlice::empty::<M>(&*self.root, start)
        } else {
            TreeSlice::from_range_in_node::<M>(&*self.root, start, end)
        }
    }

    /// The leaves of the tree, left to right.
    pub fn leaves(&self) -> (r: Vec<&L>)
        requires
            self.wf(),
        ensures
            derefs(r@) == self@,
    {
        let mut out: Vec<&L> = Vec::new();
        collect_leaves(&*self.root, &mut out);
        proof {
            assert(derefs(out@) =~= self@);
        }
        out
    }
}


impl<const FANOUT: usize, L: BalancedLeaf> Tree<FANOUT, L> {
    /// Appends `leaf` after the last leaf; an underfilled leaf is balanced
    /// with its new neighbour, so the content is that of the old leaves
    /// followed by `leaf`.
    #[verifier::rlimit(100)]
    pub fn append(&mut self, leaf: L)
        requires
            FANOUT >= 4,
            old(self).wf(),
            old(self).spec_depth() + 2 < usize::MAX,
            fits_leaves(old(self)@ + seq![leaf]),
        ensures
            final(self).wf(),
            rebalanced(final(self)@, old(self)@ + seq![leaf]),
            old(self).filled() ==> final(self).filled(),
            final(self).spec_depth() <= old(self).spec_depth() + 1,
    {
        let ghost before = self@;
        proof {
            self.root.lemma_wf();
            crate::summary::lemma_total_single(leaf);
            assert(seq![leaf] =~= Seq::<L>::empty() + seq![leaf] + Seq::<L>::empty());
            assert(before + seq![leaf] =~= before + seq![leaf] + Seq::<L>::empty());
            lemma_fits_leaves_sub(before, seq![leaf], Seq::<L>::empty());
        }
        let node: Arc<Node<FANOUT, L>> = Arc::new(Node::Leaf(Lnode::from_value(leaf)));
        let new_root = match &*self.root {
            Node::Leaf(_) => {
                let mut inode: Inode<FANOUT, L> = Inode::empty();
                let old_root = share(&self.root);
                proof {
                    assert(Seq::<L>::empty() + old_root.leaves() =~= old_root.leaves());
                    assert(inode.leaves() =~= Seq::<L>::empty());
                }
                inode.push(old_root);
                proof {
                    assert(inode.children@ =~= seq![old_root]);
                    lemma_leaves_of_single(old_root);
                }
                inode.push(node);
                proof {
                    assert(inode.children@ =~= seq![old_root] + seq![node]);
                    lemma_leaves_of_concat(seq![old_root], seq![node]);
                    lemma_leaves_of_single(node);
                    assert(inode.leaves() == before + seq![leaf]);
                }
                inode.balance_last_child_with_penultimate();
                proof {
                    assert forall|q: int| 0 <= q < inode.children@.len() implies (#[trigger] inode.children@[q]).filled()
                        && (inode.children@[q].spec_is_internal() ==> inode.children@[q].spec_len() >= FANOUT / 2) by {
                        assert(inode.children@[q].depth() == 0);
                    }
                }
                if inode.len() == 1 {
                    let only = share(&inode.children[0]);
                    proof {
                        assert(inode.children@ =~= seq![only]);
                        lemma_leaves_of_single(only);
                        assert(only.depth() == 0);
                    }
                    only
                } else {
                    Arc::new(Node::Internal(inode))
                }
            },
            Node::Internal(i) => {
                let mut r = i.duplicate();
                proof {
                    if old(self).filled() {
                        assert(all_filled(r.children@));
                    }
                }
                let extra = r.append_at_depth(node);
                match extra {
                    None => Arc::new(Node::Internal(r)),
                    Some(e) => {
                        let ghost both = r.leaves() + e.leaves();
                        let mut top: Inode<FANOUT, L> = Inode::empty();
                        let left = Arc::new(Node::Internal(r));
                        let right = Arc::new(Node::Internal(e));
                        proof {
                            crate::summary::lemma_rebalanced_within(both, before + seq![leaf]);
                            crate::summary::lemma_fits_within(both, before + seq![leaf]);
                            lemma_fits_leaves_sub(Seq::<L>::empty(), r.leaves(), e.leaves());
                            assert(Seq::<L>::empty() + r.leaves() + e.leaves() =~= both);
                            assert(Seq::<L>::empty() + r.leaves() =~= r.leaves());
                            assert(top.leaves() =~= Seq::<L>::empty());
                        }
                        top.push(left);
                        proof {
                            assert(top.children@ =~= seq![left]);
                            lemma_leaves_of_single(left);
                        }
                        top.push(right);
                        proof {
                            assert(top.children@ =~= seq![left] + seq![right]);
                            crate::node::lemma_leaves_of_concat(seq![left], seq![right]);
                            lemma_leaves_of_single(left);
                            lemma_leaves_of_single(right);
                            assert(top.leaves() == both);
                            if old(self).filled() {
                                assert(all_filled(i.children@));
                                assert forall|q: int| 0 <= q < top.children@.len() implies (#[trigger] top.children@[q]).filled()
                                    && (top.children@[q].spec_is_internal() ==> top.children@[q].spec_len() >= FANOUT / 2) by {
                                    if q == 0 {
                                        assert(top.children@[q] == left);
                                    } else {
                                        assert(top.children@[q] == right);
                                    }
                                }
                            }
                        }
                        Arc::new(Node::Internal(top))
                    },
                }
            },
        };
        self.root = new_root;
    }
}

} // verus!
