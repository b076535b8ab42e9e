use std::sync::Arc;
use vstd::prelude::*;

use crate::node::{
    all_filled, all_sized, all_wf_at, grandchildren, leaves_of, lemma_leaves_of_concat, lemma_leaves_of_single,
    lemma_leaves_of_split, segment, share, Inode, Lnode, Node,
};
use crate::summary::{
    fits_leaves, lemma_contents_concat, lemma_contents_single, lemma_fits_leaves_comm,
    lemma_fits_leaves_sub, lemma_fits_move_last, lemma_fits_within, lemma_rebalanced_fits, lemma_rebalanced_middle,
    lemma_rebalanced_within, lemma_total_concat, lemma_total_single, lemma_within_drop_middle,
    rebalanced, BalancedLeaf, Leaf,
};

verus! {

broadcast use vstd::std_specs::vec::group_vec_axioms;

impl<const N: usize, L: Leaf> Node<N, L> {
    /// An inode with fewer than `N / 2` children, or a leaf that is not
    /// big enough.
    pub open spec fn spec_underfilled(&self) -> bool {
        match self {
            Node::Internal(i) => i.children.len() < N / 2,
            Node::Leaf(l) => !l.value.big_enough(),
        }
    }

    /// Down the left edge of this subtree, every inode has a second child,
    /// and that child is not underfilled.
    pub open spec fn left_edge_ready(&self) -> bool
        decreases self,
    {
        match self {
            Node::Leaf(_) => true,
            Node::Internal(i) => {
                &&& i.children.len() >= 2
                &&& !i.children@[1].spec_underfilled()
                &&& i.children@[0].left_edge_ready()
            },
        }
    }

    /// Down the left edge of this subtree, no first child is underfilled.
    pub open spec fn left_edge_balanced(&self) -> bool
        decreases self,
    {
        match self {
            Node::Leaf(_) => true,
            Node::Internal(i) => {
                &&& i.children.len() >= 1
                &&& !i.children@[0].spec_underfilled()
                &&& i.children@[0].left_edge_balanced()
            },
        }
    }

    /// Down the right edge of this subtree, every inode has a second to
    /// last child, and that child is not underfilled.
    pub open spec fn right_edge_ready(&self) -> bool
        decreases self,
    {
        match self {
            Node::Leaf(_) => true,
            Node::Internal(i) => {
                &&& i.children.len() >= 2
                &&& !i.children@[i.children.len() - 2].spec_underfilled()
                &&& i.children@[i.children.len() - 1].right_edge_ready()
            },
        }
    }

    /// Down the right edge of this subtree, no last child is underfilled.
    pub open spec fn right_edge_balanced(&self) -> bool
        decreases self,
    {
        match self {
            Node::Leaf(_) => true,
            Node::Internal(i) => {
                &&& i.children.len() >= 1
                &&& !i.children@[i.children.len() - 1].spec_underfilled()
                &&& i.children@[i.children.len() - 1].right_edge_balanced()
            },
        }
    }

    pub fn is_underfilled(&self) -> (r: bool)
        requires
            self.wf(),
        ensures
            r == self.spec_underfilled(),
    {
        match self {
            Node::Internal(i) => i.is_underfilled(),
            Node::Leaf(l) => !l.is_big_enough(),
        }
    }
}

impl<const N: usize, L: Leaf> Inode<N, L> {
    /// A copy of this inode that shares its children.
    pub fn duplicate(&self) -> (r: Self)
        requires
            self.wf(),
        ensures
            r.wf(),
            r.children@ == self.children@,
            r.depth == self.depth,
    {
        let mut children: Vec<Arc<Node<N, L>>> = Vec::new();
        let mut j: usize = 0;
        while j < self.children.len()
            invariant
                j <= self.children@.len(),
                children@ == self.children@.subrange(0, j as int),
            decreases self.children@.len() - j,
        {
            children.push(share(&self.children[j]));
            j = j + 1;
            proof {
                assert(children@ =~= self.children@.subrange(0, j as int));
            }
        }
        proof {
            assert(children@ =~= self.children@);
        }
        Inode {
            children,
            summary: L::copy_summary(&self.summary),
            depth: self.depth,
            leaf_count: self.leaf_count,
        }
    }

    /// Appends `nodes` after the last child, in order.
    pub fn push_all(&mut self, nodes: Vec<Arc<Node<N, L>>>)
        requires
            old(self).wf(),
            old(self).children@.len() >= 1,
            old(self).children@.len() + nodes@.len() <= N,
            all_wf_at(nodes@, old(self).depth - 1),
            fits_leaves(old(self).leaves() + leaves_of(nodes@)),
        ensures
            final(self).wf(),
            final(self).children@ == old(self).children@ + nodes@,
            final(self).depth == old(self).depth,
    {
        let ghost start = self.children@;
        let mut j: usize = 0;
        while j < nodes.len()
            invariant
                j <= nodes@.len(),
                self.wf(),
                self.depth == old(self).depth,
                start.len() >= 1,
                start.len() + nodes@.len() <= N,
                all_wf_at(nodes@, self.depth - 1),
                fits_leaves(leaves_of(start) + leaves_of(nodes@)),
                self.children@ == start + nodes@.subrange(0, j as int),
            decreases nodes@.len() - j,
        {
            let child = share(&nodes[j]);
            proof {
                let a = nodes@.subrange(0, j as int);
                let c = nodes@.subrange(j as int + 1, nodes@.len() as int);
                assert(nodes@ =~= a + seq![child] + c);
                lemma_leaves_of_concat(a + seq![child], c);
                lemma_leaves_of_concat(a, seq![child]);
                lemma_leaves_of_single(child);
                lemma_leaves_of_concat(start, a);
                assert(leaves_of(start) + leaves_of(nodes@) =~= leaves_of(start) + leaves_of(a)
                    + child.leaves() + leaves_of(c));
                lemma_fits_leaves_sub(
                    leaves_of(start) + leaves_of(a) + child.leaves(),
                    leaves_of(c),
                    Seq::<L>::empty(),
                );
                assert(leaves_of(start) + leaves_of(a) + child.leaves() + leaves_of(c) + Seq::<
                    L,
                >::empty() =~= leaves_of(start) + leaves_of(a) + child.leaves() + leaves_of(c));
                assert(leaves_of(start) + leaves_of(a) + child.leaves() + Seq::<L>::empty()
                    =~= leaves_of(start) + leaves_of(a) + child.leaves());
                assert(self.leaves() == leaves_of(start) + leaves_of(a));
                assert(self.leaves() + child.leaves() =~= leaves_of(start) + leaves_of(a)
                    + child.leaves());
            }
            self.push(child);
            j = j + 1;
            proof {
                assert(self.children@ =~= start + nodes@.subrange(0, j as int));
            }
        }
        proof {
            assert(nodes@.subrange(0, j as int) =~= nodes@);
        }
    }

    /// Puts `nodes` before the first child, in order.
    pub fn prepend_all(&mut self, nodes: Vec<Arc<Node<N, L>>>)
        requires
            old(self).wf(),
            old(self).children@.len() >= 1,
            old(self).children@.len() + nodes@.len() <= N,
            all_wf_at(nodes@, old(self).depth - 1),
            fits_leaves(leaves_of(nodes@) + old(self).leaves()),
        ensures
            final(self).wf(),
            final(self).children@ == nodes@ + old(self).children@,
            final(self).depth == old(self).depth,
    {
        let ghost start = self.children@;
        let mut j: usize = 0;
        while j < nodes.len()
            invariant
                j <= nodes@.len(),
                self.wf(),
                self.depth == old(self).depth,
                start.len() >= 1,
                start.len() + nodes@.len() <= N,
                all_wf_at(nodes@, self.depth - 1),
                fits_leaves(leaves_of(nodes@) + leaves_of(start)),
                self.children@ == nodes@.subrange(0, j as int) + start,
            decreases nodes@.len() - j,
        {
            let child = share(&nodes[j]);
            proof {
                let a = nodes@.subrange(0, j as int);
                let c = nodes@.subrange(j as int + 1, nodes@.len() as int);
                assert(nodes@ =~= a + seq![child] + c);
                lemma_leaves_of_concat(a + seq![child], c);
                lemma_leaves_of_concat(a, seq![child]);
                lemma_leaves_of_single(child);
                lemma_leaves_of_concat(a, start);
                assert(leaves_of(nodes@) + leaves_of(start) =~= leaves_of(a) + child.leaves()
                    + (leaves_of(c) + leaves_of(start)));
                lemma_fits_leaves_sub(
                    leaves_of(a) + child.leaves(),
                    leaves_of(c),
                    leaves_of(start),
                );
                assert(self.leaves() == leaves_of(a) + leaves_of(start));
                lemma_fits_move_last(leaves_of(a), child.leaves(), leaves_of(start));
            }
            self.insert(j, child);
            j = j + 1;
            proof {
                assert(self.children@ =~= nodes@.subrange(0, j as int) + start);
            }
        }
        proof {
            assert(nodes@.subrange(0, j as int) =~= nodes@);
        }
    }
}


impl<const N: usize, L: Leaf> Inode<N, L> {
    /// Balances this inode with `other`, its right neighbour at the same
    /// depth. Where either holds fewer than `N / 2` children: if all fit in
    /// one inode they all move here and `other` is left empty; else the
    /// fewest children move to the short side for both to hold `N / 2` to
    /// `N`.
    #[verifier::rlimit(100)]
    pub fn balance(&mut self, other: &mut Self)
        requires
            N >= 4,
            old(self).wf(),
            old(other).wf(),
            old(self).children@.len() >= 1,
            old(other).children@.len() >= 1,
            old(self).depth == old(other).depth,
            fits_leaves(old(self).leaves() + old(other).leaves()),
        ensures
            final(self).wf(),
            final(other).wf(),
            final(self).depth == old(self).depth,
            final(other).depth == old(other).depth,
            final(self).children@ + final(other).children@ == old(self).children@
                + old(other).children@,
            final(self).children@.len() >= 1,
            old(self).children@.len() >= N / 2 && old(other).children@.len() >= N / 2
                ==> final(self).children@ == old(self).children@
                && final(other).children@ == old(other).children@,
            old(self).children@.len() < N / 2 || old(other).children@.len() < N / 2
                ==> (final(other).children@.len() == 0
                && old(self).children@.len() + old(other).children@.len() <= N)
                || (N / 2 <= final(self).children@.len() <= N
                && N / 2 <= final(other).children@.len() <= N),
            (old(self).children@.len() < N / 2 || old(other).children@.len() < N / 2)
                && old(self).children@.len() + old(other).children@.len() <= N
                ==> final(other).children@.len() == 0,
            old(self).children@.len() + old(other).children@.len() > N
                && old(self).children@.len() < N / 2 ==> final(self).children@.len() == N / 2,
            old(self).children@.len() + old(other).children@.len() > N
                && old(other).children@.len() < N / 2 ==> final(other).children@.len() == N / 2,
            final(self).children@[0] == old(self).children@[0],
            final(other).children@.len() > 0 ==> final(other).children@.last()
                == old(other).children@.last(),
            final(other).children@.len() == 0 ==> final(self).children@.last()
                == old(other).children@.last(),
    {
        let ghost s0 = self.children@;
        let ghost o0 = other.children@;
        proof {
            lemma_leaves_of_concat(s0, o0);
        }
        if !self.is_underfilled() && !other.is_underfilled() {
            return;
        }
        let a = self.len();
        let b = other.len();
        let min = N / 2;
        if a <= N - b {
            let moved = other.drain(0, b);
            proof {
                assert(moved@ =~= o0);
            }
            self.push_all(moved);
            proof {
                assert(other.children@ =~= Seq::<Arc<Node<N, L>>>::empty());
                assert(self.children@ + other.children@ =~= s0 + o0);
            }
        } else if a > b {
            let k = min - b;
            let moved = self.drain(a - k, a);
            proof {
                let x = s0.subrange(0, a - k);
                assert(s0 =~= x + moved@);
                lemma_leaves_of_concat(x, moved@);
                lemma_leaves_of_concat(moved@, o0);
                assert(leaves_of(s0) + leaves_of(o0) =~= leaves_of(x) + (leaves_of(moved@)
                    + leaves_of(o0)) + Seq::<L>::empty());
                lemma_fits_leaves_sub(
                    leaves_of(x),
                    leaves_of(moved@) + leaves_of(o0),
                    Seq::<L>::empty(),
                );
                assert(self.children@ =~= x);
            }
            other.prepend_all(moved);
            proof {
                assert(self.children@ + other.children@ =~= s0 + o0);
            }
        } else {
            let k = min - a;
            let moved = other.drain(0, k);
            proof {
                let y = o0.subrange(k as int, b as int);
                assert(o0 =~= moved@ + y);
                lemma_leaves_of_concat(moved@, y);
                lemma_leaves_of_concat(s0, moved@);
                assert(leaves_of(s0) + leaves_of(o0) =~= Seq::<L>::empty() + (leaves_of(s0)
                    + leaves_of(moved@)) + leaves_of(y));
                lemma_fits_leaves_sub(
                    Seq::<L>::empty(),
                    leaves_of(s0) + leaves_of(moved@),
                    leaves_of(y),
                );
                assert(other.children@ =~= y);
            }
            self.push_all(moved);
            proof {
                assert(self.children@ + other.children@ =~= s0 + o0);
            }
        }
    }
}

/// Balances two neighbouring nodes of the same depth: returns either one
/// node holding the content of both, or two nodes that hold it in order.
#[verifier::rlimit(100)]
pub fn balance_nodes<const N: usize, L: BalancedLeaf>(
    left: &Node<N, L>,
    right: &Node<N, L>,
) -> (r: (Node<N, L>, Option<Node<N, L>>))
    requires
        N >= 4,
        left.wf(),
        right.wf(),
        left.depth() == right.depth(),
        fits_leaves(left.leaves() + right.leaves()),
    ensures
        r.0.wf(),
        r.0.depth() == left.depth(),
        match r.1 {
            Some(b) => {
                &&& b.wf()
                &&& b.depth() == left.depth()
                &&& rebalanced(r.0.leaves() + b.leaves(), left.leaves() + right.leaves())
            },
            None => rebalanced(r.0.leaves(), left.leaves() + right.leaves()),
        },
        left.filled() && right.filled() && (left.well_filled() || right.well_filled())
            ==> r.0.well_filled() && (r.1 matches Some(b) ==> b.well_filled()),
        r.1 is Some && left.spec_underfilled() ==> !r.0.spec_underfilled(),
        r.1 is Some && !left.spec_underfilled() && right.spec_underfilled()
            ==> !r.1->0.spec_underfilled(),
        !right.spec_underfilled() ==> !r.0.spec_underfilled(),
        r.1 is None && !left.spec_underfilled() ==> !r.0.spec_underfilled(),
        left.spec_underfilled() && right.spec_underfilled() ==> r.1 is None,
        r.1 is Some ==> !r.0.spec_underfilled() && !r.1->0.spec_underfilled(),
        left.spec_is_internal() ==> r.0.spec_is_internal() && r.0.children_of()[0]
            == left.children_of()[0],
        right.spec_is_internal() && r.1 is Some ==> r.1->0.spec_is_internal()
            && r.1->0.children_of().last() == right.children_of().last(),
        right.spec_is_internal() && r.1 is None ==> r.0.children_of().last()
            == right.children_of().last(),
        r.0.leaves().len() + (if r.1 is Some {
            r.1->0.leaves().len()
        } else {
            0
        }) + 1 >= left.leaves().len() + right.leaves().len(),
{
    match (left, right) {
        (Node::Internal(l), Node::Internal(rt)) => {
            let mut a = l.duplicate();
            let mut b = rt.duplicate();
            a.balance(&mut b);
            proof {
                lemma_leaves_of_concat(a.children@, b.children@);
                lemma_leaves_of_concat(l.children@, rt.children@);
                if left.filled() && right.filled() {
                    let both = l.children@ + rt.children@;
                    assert forall|q: int| 0 <= q < a.children@.len() implies (#[trigger] a.children@[q]).well_filled() by {
                        assert(a.children@[q] == (a.children@ + b.children@)[q]);
                        if q < l.children@.len() {
                            assert(both[q] == l.children@[q]);
                        } else {
                            assert(both[q] == rt.children@[q - l.children@.len()]);
                        }
                    }
                    assert forall|q: int| 0 <= q < b.children@.len() implies (#[trigger] b.children@[q]).well_filled() by {
                        let p = a.children@.len() + q;
                        assert(b.children@[q] == (a.children@ + b.children@)[p]);
                        if p < l.children@.len() {
                            assert(both[p] == l.children@[p]);
                        } else {
                            assert(both[p] == rt.children@[p - l.children@.len()]);
                        }
                    }
                }
            }
            if b.len() == 0 {
                proof {
                    assert(b.leaves() =~= Seq::<L>::empty());
                    assert(a.leaves() =~= a.leaves() + b.leaves());
                }
                (Node::Internal(a), None)
            } else {
                (Node::Internal(a), Some(Node::Internal(b)))
            }
        },
        (Node::Leaf(l), Node::Leaf(rt)) => {
            proof {
                lemma_total_single(l.value);
                lemma_total_single(rt.value);
                lemma_total_concat(seq![l.value], seq![rt.value]);
                assert(left.leaves() + right.leaves() =~= seq![l.value, rt.value]);
                assert(seq![l.value] + seq![rt.value] =~= seq![l.value, rt.value]);
                lemma_contents_concat(seq![l.value], seq![rt.value]);
                lemma_contents_single(l.value);
                lemma_contents_single(rt.value);
                l.value.lemma_arity();
                rt.value.lemma_arity();
            }
            let (first, second) = L::balance_slices(&l.value, &l.summary, &rt.value, &rt.summary);
            let (v0, s0) = first;
            let n0 = Lnode { value: v0, summary: s0 };
            proof {
                lemma_total_single(v0);
                lemma_contents_single(v0);
                crate::summary::lemma_minus_plus(l.value.measures(), rt.value.measures());
            }
            match second {
                Some(pair) => {
                    let (v1, s1) = pair;
                    let n1 = Lnode { value: v1, summary: s1 };
                    proof {
                        lemma_total_single(v1);
                        lemma_contents_single(v1);
                        v0.lemma_arity();
                        v1.lemma_arity();
                        lemma_total_concat(seq![v0], seq![v1]);
                        lemma_contents_concat(seq![v0], seq![v1]);
                        crate::summary::lemma_minus_plus(v0.measures(), v1.measures());
                        assert(Node::<N, L>::Leaf(n0).leaves() + Node::<N, L>::Leaf(n1).leaves()
                            =~= seq![v0] + seq![v1]);
                    }
                    (Node::Leaf(n0), Some(Node::Leaf(n1)))
                },
                None => (Node::Leaf(n0), None),
            }
        },
        // Nodes of one depth are both leaves or both inodes.
        (Node::Internal(l), Node::Leaf(_)) => {
            proof {
                assert(false);
            }
            (Node::Internal(l.duplicate()), None)
        },
        (Node::Leaf(_), Node::Internal(rt)) => {
            proof {
                assert(false);
            }
            (Node::Internal(rt.duplicate()), None)
        },
    }
}


/// The leaves below `s` with the nodes at `i` and `i + 1` taken out, and
/// what stands on either side of them.
proof fn lemma_leaves_around_pair<const N: usize, L: Leaf>(s: Seq<Arc<Node<N, L>>>, i: int)
    requires
        0 <= i,
        i + 1 < s.len(),
    ensures
        leaves_of(s) == leaves_of(s.subrange(0, i)) + (s[i].leaves() + s[i + 1].leaves())
            + leaves_of(s.subrange(i + 2, s.len() as int)),
{
    let x = s.subrange(0, i);
    let y = s.subrange(i + 2, s.len() as int);
    assert(s =~= x + seq![s[i], s[i + 1]] + y);
    lemma_leaves_of_concat(x + seq![s[i], s[i + 1]], y);
    lemma_leaves_of_concat(x, seq![s[i], s[i + 1]]);
    assert(seq![s[i], s[i + 1]] =~= seq![s[i]] + seq![s[i + 1]]);
    lemma_leaves_of_concat(seq![s[i]], seq![s[i + 1]]);
    lemma_leaves_of_single(s[i]);
    lemma_leaves_of_single(s[i + 1]);
}

proof fn lemma_leaves_of_parts<const N: usize, L: Leaf>(
    x: Seq<Arc<Node<N, L>>>,
    m: Seq<Arc<Node<N, L>>>,
    y: Seq<Arc<Node<N, L>>>,
)
    ensures
        leaves_of(x + m + y) == leaves_of(x) + leaves_of(m) + leaves_of(y),
{
    lemma_leaves_of_concat(x + m, y);
    lemma_leaves_of_concat(x, m);
}

impl<const N: usize, L: BalancedLeaf> Inode<N, L> {
    /// Balances the children at `left_idx` and `left_idx + 1` with each
    /// other; where their content fits in one, the second is removed.
    #[verifier::rlimit(100)]
    pub fn balance_pair(&mut self, left_idx: usize)
        requires
            N >= 4,
            old(self).wf(),
            left_idx + 1 < old(self).children@.len(),
        ensures
            final(self).wf(),
            final(self).depth == old(self).depth,
            rebalanced(final(self).leaves(), old(self).leaves()),
            old(self).children@.len() - 1 <= final(self).children@.len() <= old(self).children@.len(),
            final(self).children@.len() == old(self).children@.len()
                && old(self).children@[left_idx as int].spec_underfilled()
                ==> !final(self).children@[left_idx as int].spec_underfilled(),
            final(self).children@.len() == old(self).children@.len()
                && !old(self).children@[left_idx as int].spec_underfilled()
                && old(self).children@[left_idx + 1].spec_underfilled()
                ==> !final(self).children@[left_idx + 1].spec_underfilled(),
            final(self).leaves().len() + 1 >= old(self).leaves().len(),
            final(self).children@.len() == old(self).children@.len()
                ==> !final(self).children@[left_idx as int].spec_underfilled()
                && !final(self).children@[left_idx + 1].spec_underfilled(),
            final(self).children@.subrange(0, left_idx as int) == old(self).children@.subrange(
                0,
                left_idx as int,
            ),
            final(self).children@.subrange(
                final(self).children@.len() - (old(self).children@.len() - left_idx - 2),
                final(self).children@.len() as int,
            ) == old(self).children@.subrange(left_idx + 2, old(self).children@.len() as int),
            !old(self).children@[left_idx + 1].spec_underfilled()
                ==> !final(self).children@[left_idx as int].spec_underfilled(),
            final(self).children@.len() < old(self).children@.len()
                && !old(self).children@[left_idx as int].spec_underfilled()
                ==> !final(self).children@[left_idx as int].spec_underfilled(),
            old(self).children@[left_idx as int].spec_underfilled()
                && old(self).children@[left_idx + 1].spec_underfilled()
                ==> final(self).children@.len() < old(self).children@.len(),
            old(self).children@[left_idx as int].spec_is_internal()
                ==> final(self).children@[left_idx as int].spec_is_internal()
                && final(self).children@[left_idx as int].children_of()[0]
                == old(self).children@[left_idx as int].children_of()[0],
            old(self).children@[left_idx + 1].spec_is_internal() && final(self).children@.len()
                == old(self).children@.len() ==> final(self).children@[left_idx
                + 1].spec_is_internal() && final(self).children@[left_idx + 1].children_of().last()
                == old(self).children@[left_idx + 1].children_of().last(),
            old(self).children@[left_idx + 1].spec_is_internal() && final(self).children@.len()
                < old(self).children@.len() ==> final(self).children@[left_idx
                as int].children_of().last() == old(self).children@[left_idx + 1].children_of().last(),
    {
        let ghost s = self.children@;
        let ghost i = left_idx as int;
        let ghost xs = s.subrange(0, i);
        let ghost ys = s.subrange(i + 2, s.len() as int);
        let ghost x = leaves_of(xs);
        let ghost y = leaves_of(ys);
        let ghost c = s[i].leaves() + s[i + 1].leaves();
        proof {
            lemma_leaves_around_pair(s, i);
            self.lemma_shallow();
            lemma_fits_leaves_sub(x, c, y);
        }
        let (a, b) = balance_nodes(&self.children[left_idx], &self.children[left_idx + 1]);
        let _ = self.remove(left_idx + 1);
        proof {
            assert(self.children@ =~= xs + seq![s[i]] + ys);
            assert(self.children@.subrange(0, i) =~= xs);
            assert(self.children@.subrange(i + 1, self.children@.len() as int) =~= ys);
        }
        match b {
            Some(b) => {
                let ghost ab = a.leaves() + b.leaves();
                proof {
                    lemma_rebalanced_fits(x, ab, c, y);
                    crate::summary::lemma_rebalanced_within(ab, c);
                    lemma_within_drop_middle(a.leaves(), b.leaves(), Seq::<L>::empty());
                    assert(a.leaves() + b.leaves() + Seq::<L>::empty() =~= ab);
                    assert(a.leaves() + Seq::<L>::empty() =~= a.leaves());
                    crate::summary::lemma_within_trans(a.leaves(), ab, c);
                    crate::summary::lemma_within_middle(x, a.leaves(), c, y);
                    lemma_fits_within(x + a.leaves() + y, x + c + y);
                }
                self.swap(left_idx, Arc::new(a));
                proof {
                    assert(self.children@ =~= xs + seq![Arc::new(a)] + ys);
                    lemma_leaves_of_parts(xs, seq![Arc::new(a)], ys);
                    lemma_leaves_of_single(Arc::new(a));
                    assert(x + ab + y =~= x + a.leaves() + b.leaves() + y);
                    lemma_fits_move_last(x + a.leaves(), b.leaves(), y);
                }
                self.insert(left_idx + 1, Arc::new(b));
                proof {
                    assert(self.children@ =~= xs + seq![Arc::new(a), Arc::new(b)] + ys);
                    lemma_leaves_of_parts(xs, seq![Arc::new(a), Arc::new(b)], ys);
                    assert(seq![Arc::new(a), Arc::new(b)] =~= seq![Arc::new(a)] + seq![Arc::new(b)]);
                    lemma_leaves_of_concat(seq![Arc::new(a)], seq![Arc::new(b)]);
                    lemma_leaves_of_single(Arc::new(a));
                    lemma_leaves_of_single(Arc::new(b));
                    assert(x + ab + y == self.leaves());
                }
            },
            None => {
                proof {
                    lemma_rebalanced_fits(x, a.leaves(), c, y);
                }
                self.swap(left_idx, Arc::new(a));
                proof {
                    assert(self.children@ =~= xs + seq![Arc::new(a)] + ys);
                    lemma_leaves_of_parts(xs, seq![Arc::new(a)], ys);
                    lemma_leaves_of_single(Arc::new(a));
                }
            },
        }
    }
}


impl<const N: usize, L: Leaf> Inode<N, L> {
    /// A copy of the child at `idx`, which is an inode since this inode
    /// stands at least two levels above the leaves.
    pub fn child_inode(&self, idx: usize) -> (r: Self)
        requires
            self.wf(),
            self.depth >= 2,
            idx < self.children@.len(),
        ensures
            r.wf(),
            r.children@.len() >= 1,
            r.depth == self.depth - 1,
            Node::Internal(r).leaves() == self.children@[idx as int].leaves(),
            Node::Internal(r).wf(),
            Node::Internal(r).well_filled() == self.children@[idx as int].well_filled(),
            r.children@ == self.children@[idx as int].children_of(),
            self.children@[idx as int].spec_is_internal(),
    {
        match &*self.children[idx] {
            Node::Internal(c) => c.duplicate(),
            // A child one level above the leaves' parents is an inode.
            Node::Leaf(_) => {
                proof {
                    assert(false);
                }
                self.duplicate()
            },
        }
    }
}

impl<const N: usize, L: BalancedLeaf> Inode<N, L> {
    /// Balances the first child with the second where the first is
    /// underfilled.
    pub fn balance_first_child_with_second(&mut self)
        requires
            N >= 4,
            old(self).wf(),
            old(self).children@.len() >= 2,
        ensures
            final(self).wf(),
            final(self).depth == old(self).depth,
            rebalanced(final(self).leaves(), old(self).leaves()),
            final(self).children@.len() >= 1,
            !old(self).children@[0].spec_underfilled() ==> final(self).children@ == old(self).children@,
            final(self).children@.len() == old(self).children@.len() - 1
                || !final(self).children@[0].spec_underfilled(),
            !old(self).children@[1].spec_underfilled() ==> !final(self).children@[0].spec_underfilled(),
            old(self).children@[0].spec_underfilled() && final(self).children@.len()
                == old(self).children@.len() ==> !final(self).children@[0].spec_underfilled()
                && !final(self).children@[1].spec_underfilled(),
            final(self).leaves().len() + 1 >= old(self).leaves().len(),
            old(self).children@.len() - 1 <= final(self).children@.len(),
            final(self).children@.subrange(
                final(self).children@.len() - (old(self).children@.len() - 2),
                final(self).children@.len() as int,
            ) == old(self).children@.subrange(2, old(self).children@.len() as int),
            old(self).children@[0].spec_is_internal() ==> final(self).children@[0].spec_is_internal()
                && final(self).children@[0].children_of()[0] == old(self).children@[0].children_of()[0],
    {
        if !self.children[0].is_underfilled() {
            return;
        }
        self.balance_pair(0);
    }

    /// Balances the last child with the penultimate where the last is
    /// underfilled.
    pub fn balance_last_child_with_penultimate(&mut self)
        requires
            N >= 4,
            old(self).wf(),
            old(self).children@.len() >= 2,
        ensures
            final(self).wf(),
            final(self).depth == old(self).depth,
            rebalanced(final(self).leaves(), old(self).leaves()),
            final(self).children@.len() >= 1,
            !old(self).children@.last().spec_underfilled() ==> final(self).children@ == old(self).children@,
            final(self).children@.len() == old(self).children@.len() - 1
                || !final(self).children@.last().spec_underfilled(),
            !old(self).children@[old(self).children@.len() - 2].spec_underfilled()
                ==> !final(self).children@.last().spec_underfilled(),
            old(self).children@.last().spec_underfilled() && final(self).children@.len()
                == old(self).children@.len() ==> !final(self).children@.last().spec_underfilled()
                && !final(self).children@[final(self).children@.len() - 2].spec_underfilled(),
            final(self).leaves().len() + 1 >= old(self).leaves().len(),
            old(self).children@.len() - 1 <= final(self).children@.len(),
            final(self).children@.subrange(0, old(self).children@.len() - 2)
                == old(self).children@.subrange(0, old(self).children@.len() - 2),
            old(self).children@.last().spec_is_internal() ==> final(self).children@.last().spec_is_internal()
                && final(self).children@.last().children_of().last()
                == old(self).children@.last().children_of().last(),
    {
        let last_idx = self.len() - 1;
        if !self.children[last_idx].is_underfilled() {
            return;
        }
        self.balance_pair(last_idx - 1);
    }

    /// Balances the child at `child_idx` with the one before it, or with
    /// the second where it is the first, if it is underfilled.
    pub fn balance_child(&mut self, child_idx: usize)
        requires
            N >= 4,
            old(self).wf(),
            old(self).children@.len() >= 2,
            child_idx < old(self).children@.len(),
        ensures
            final(self).wf(),
            final(self).depth == old(self).depth,
            rebalanced(final(self).leaves(), old(self).leaves()),
            final(self).children@.len() >= 1,
            !old(self).children@[child_idx as int].spec_underfilled() ==> final(self).children@
                == old(self).children@,
            old(self).children@[child_idx as int].spec_underfilled() ==> final(self).children@.len()
                == old(self).children@.len() - 1
                || !final(self).children@[child_idx as int].spec_underfilled(),
            final(self).leaves().len() + 1 >= old(self).leaves().len(),
    {
        if !self.children[child_idx].is_underfilled() {
            return;
        }
        let left_idx = if child_idx == 0 {
            0
        } else {
            child_idx - 1
        };
        self.balance_pair(left_idx);
    }

    /// Balances the left edge bottom up: the first child's own left edge,
    /// then the first child with the second where it is underfilled.
    /// The first child ends up not underfilled unless it was merged with
    /// the second. Where every inode down the left edge has a second child
    /// that is not underfilled, no first child down the edge is left
    /// underfilled.
    #[verifier::rlimit(100)]
    pub fn balance_left_side(&mut self)
        requires
            N >= 4,
            old(self).wf(),
            old(self).children@.len() >= 1,
        ensures
            final(self).wf(),
            final(self).depth == old(self).depth,
            rebalanced(final(self).leaves(), old(self).leaves()),
            final(self).children@.len() >= 1,
            old(self).children@.len() >= 2 ==> final(self).children@.len() == old(self).children@.len() - 1
                || !final(self).children@[0].spec_underfilled(),
            Node::Internal(*old(self)).left_edge_ready() ==> Node::Internal(*final(self)).left_edge_balanced(),
        decreases old(self).depth,
    {
        if self.depth >= 2 {
            let ghost s = self.children@;
            let mut first = self.child_inode(0);
            proof {
                assert(Node::Internal(first).left_edge_ready() == s[0].left_edge_ready());
            }
            first.balance_left_side();
            proof {
                let y = leaves_of(s.subrange(1, s.len() as int));
                lemma_leaves_replace_first(s, Arc::new(Node::Internal(first)));
                self.lemma_shallow();
                assert(self.leaves() =~= Seq::<L>::empty() + s[0].leaves() + y);
                lemma_rebalanced_fits(Seq::<L>::empty(), first.leaves(), s[0].leaves(), y);
                assert(Seq::<L>::empty() + first.leaves() + y =~= first.leaves() + y);
                lemma_rebalanced_middle(Seq::<L>::empty(), first.leaves(), s[0].leaves(), y);
            }
            self.swap(0, Arc::new(Node::Internal(first)));
            proof {
                if s.len() >= 2 {
                    assert(self.children@[1] == s[1]);
                }
            }
        }
        let ghost before = self.children@;
        let ghost ready = Node::Internal(*old(self)).left_edge_ready();
        proof {
            if ready {
                assert(before[0].left_edge_balanced()) by {
                    if !before[0].spec_is_internal() {
                        assert(before[0].depth() == 0);
                    }
                }
                assert(!before[1].spec_underfilled());
            }
        }
        if self.len() < 2 {
            return;
        }
        self.balance_first_child_with_second();
        proof {
            let f = self.children@;
            if !ready {
            } else if before[0].spec_is_internal() {
                assert(!f[0].spec_underfilled());
                let c = before[0].children_of()[0];
                assert(!c.spec_underfilled() && c.left_edge_balanced());
                assert(f[0].children_of()[0] == c);
                assert(f[0].children_of().len() >= 1);
                assert(f[0].left_edge_balanced());
            } else {
                assert(!f[0].spec_underfilled());
                assert(f[0].depth() == 0);
                assert(f[0].left_edge_balanced());
            }
        }
    }

    /// Balances the right edge bottom up: the last child's own right edge,
    /// then the last child with the second to last where it is
    /// underfilled. The last child ends up not underfilled unless it was
    /// merged with the second to last. Where every inode down the right
    /// edge has a second to last child that is not underfilled, no last
    /// child down the edge is left underfilled.
    #[verifier::rlimit(100)]
    pub fn balance_right_side(&mut self)
        requires
            N >= 4,
            old(self).wf(),
            old(self).children@.len() >= 1,
        ensures
            final(self).wf(),
            final(self).depth == old(self).depth,
            rebalanced(final(self).leaves(), old(self).leaves()),
            final(self).children@.len() >= 1,
            old(self).children@.len() >= 2 ==> final(self).children@.len() == old(self).children@.len() - 1
                || !final(self).children@.last().spec_underfilled(),
            Node::Internal(*old(self)).right_edge_ready() ==> Node::Internal(*final(self)).right_edge_balanced(),
        decreases old(self).depth,
    {
        if self.depth >= 2 {
            let ghost s = self.children@;
            let last_idx = self.len() - 1;
            let mut last = self.child_inode(last_idx);
            proof {
                assert(Node::Internal(last).right_edge_ready() == s[last_idx as int].right_edge_ready());
            }
            last.balance_right_side();
            proof {
                let x = leaves_of(s.subrange(0, last_idx as int));
                lemma_leaves_replace_last(s, Arc::new(Node::Internal(last)));
                self.lemma_shallow();
                assert(self.leaves() =~= x + s[last_idx as int].leaves() + Seq::<L>::empty());
                lemma_rebalanced_fits(x, last.leaves(), s[last_idx as int].leaves(), Seq::<L>::empty());
                assert(x + last.leaves() + Seq::<L>::empty() =~= x + last.leaves());
                lemma_rebalanced_middle(x, last.leaves(), s[last_idx as int].leaves(), Seq::<L>::empty());
            }
            self.swap(last_idx, Arc::new(Node::Internal(last)));
            proof {
                if last_idx >= 1 {
                    assert(self.children@[last_idx - 1] == s[last_idx - 1]);
                }
            }
        }
        let ghost before = self.children@;
        let ghost ready = Node::Internal(*old(self)).right_edge_ready();
        proof {
            if ready {
                assert(before.last().right_edge_balanced()) by {
                    if !before.last().spec_is_internal() {
                        assert(before.last().depth() == 0);
                    }
                }
                assert(!before[before.len() - 2].spec_underfilled());
            }
        }
        if self.len() < 2 {
            return;
        }
        self.balance_last_child_with_penultimate();
        proof {
            let f = self.children@;
            assert(f.last() == f[f.len() - 1]);
            if !ready {
            } else if before.last().spec_is_internal() {
                assert(!f.last().spec_underfilled());
                let c = before.last().children_of().last();
                assert(before.last().children_of().last() == before.last().children_of()[before.last().children_of().len() - 1]);
                assert(!c.spec_underfilled() && c.right_edge_balanced());
                assert(f.last().children_of().last() == c);
                assert(f.last().children_of().len() >= 1);
                assert(f.last().right_edge_balanced());
            } else {
                assert(!f.last().spec_underfilled());
                assert(f.last().depth() == 0);
                assert(f.last().right_edge_balanced());
            }
        }
    }
}


/// The leaves below `s` with its last node replaced by `n`.
proof fn lemma_leaves_replace_last<const N: usize, L: Leaf>(s: Seq<Arc<Node<N, L>>>, n: Arc<Node<N, L>>)
    requires
        s.len() >= 1,
    ensures
        leaves_of(s) == leaves_of(s.subrange(0, s.len() - 1)) + s.last().leaves(),
        leaves_of(s.update(s.len() - 1, n)) == leaves_of(s.subrange(0, s.len() - 1)) + n.leaves(),
{
    let t = s.update(s.len() - 1, n);
    assert(s.drop_last() =~= s.subrange(0, s.len() - 1));
    assert(t.drop_last() =~= s.subrange(0, s.len() - 1));
    assert(t.last() == n);
}

/// The leaves below `s` with its first node replaced by `n`.
proof fn lemma_leaves_replace_first<const N: usize, L: Leaf>(s: Seq<Arc<Node<N, L>>>, n: Arc<Node<N, L>>)
    requires
        s.len() >= 1,
    ensures
        leaves_of(s) == s[0].leaves() + leaves_of(s.subrange(1, s.len() as int)),
        leaves_of(s.update(0, n)) == n.leaves() + leaves_of(s.subrange(1, s.len() as int)),
{
    let t = s.update(0, n);
    lemma_leaves_of_split(s, 0);
    lemma_leaves_of_split(t, 0);
    assert(s.subrange(0, 0) =~= Seq::<Arc<Node<N, L>>>::empty());
    assert(t.subrange(0, 0) =~= Seq::<Arc<Node<N, L>>>::empty());
    assert(t.subrange(1, t.len() as int) =~= s.subrange(1, s.len() as int));
    assert(leaves_of(Seq::<Arc<Node<N, L>>>::empty()) =~= Seq::<L>::empty());
    assert(Seq::<L>::empty() + s[0].leaves() =~= s[0].leaves());
    assert(Seq::<L>::empty() + n.leaves() =~= n.leaves());
}

impl<const N: usize, L: BalancedLeaf> Inode<N, L> {
    /// Where `node`, one level below this inode, is underfilled, balances
    /// it with the last child: returns what is left of it to append, or
    /// nothing where it merged into the last child.
    #[verifier::rlimit(100)]
    fn absorb_into_last(&mut self, node: Arc<Node<N, L>>) -> (r: Option<Arc<Node<N, L>>>)
        requires
            N >= 4,
            old(self).wf(),
            old(self).children@.len() >= 1,
            node.wf(),
            node.depth() + 1 == old(self).depth,
            fits_leaves(old(self).leaves() + node.leaves()),
        ensures
            final(self).wf(),
            final(self).depth == old(self).depth,
            final(self).children@.len() == old(self).children@.len(),
            match r {
                None => rebalanced(final(self).leaves(), old(self).leaves() + node.leaves()),
                Some(n) => {
                    &&& n.wf()
                    &&& n.depth() + 1 == old(self).depth
                    &&& rebalanced(final(self).leaves() + n.leaves(), old(self).leaves() + node.leaves())
                },
            },
            all_filled(old(self).children@) && node.filled() ==> all_filled(final(self).children@)
                && (r matches Some(n) ==> n.well_filled()),
    {
        let ghost target = self.leaves() + node.leaves();
        if node.is_underfilled() {
            let last_idx = self.len() - 1;
            let ghost s = self.children@;
            let ghost x = leaves_of(s.subrange(0, last_idx as int));
            let ghost c = s[last_idx as int].leaves();
            proof {
                lemma_leaves_replace_last(s, node);
                assert(target =~= x + (c + node.leaves()) + Seq::<L>::empty());
                lemma_fits_leaves_sub(x, c + node.leaves(), Seq::<L>::empty());
            }
            let (a, b) = balance_nodes(&self.children[last_idx], &node);
            match b {
                None => {
                    proof {
                        lemma_rebalanced_fits(x, a.leaves(), c + node.leaves(), Seq::<L>::empty());
                        lemma_leaves_replace_last(s, Arc::new(a));
                        assert(x + a.leaves() + Seq::<L>::empty() =~= x + a.leaves());
                    }
                    self.swap(last_idx, Arc::new(a));
                    proof {
                        if all_filled(s) && node.filled() {
                            assert(s[last_idx as int].well_filled());
                            assert forall|q: int| 0 <= q < self.children@.len() implies (#[trigger] self.children@[q]).well_filled() by {
                                if q != last_idx {
                                    assert(self.children@[q] == s[q]);
                                }
                            }
                        }
                    }
                    None
                },
                Some(b) => {
                    proof {
                        let ab = a.leaves() + b.leaves();
                        lemma_rebalanced_fits(x, ab, c + node.leaves(), Seq::<L>::empty());
                        assert(x + ab + Seq::<L>::empty() =~= x + a.leaves() + b.leaves()
                            + Seq::<L>::empty());
                        lemma_fits_leaves_sub(x + a.leaves(), b.leaves(), Seq::<L>::empty());
                        assert(x + a.leaves() + Seq::<L>::empty() =~= x + a.leaves());
                        lemma_leaves_replace_last(s, Arc::new(a));
                        assert(x + ab + Seq::<L>::empty() =~= x + a.leaves() + b.leaves());
                    }
                    self.swap(last_idx, Arc::new(a));
                    proof {
                        if all_filled(s) && node.filled() {
                            assert(s[last_idx as int].well_filled());
                            assert forall|q: int| 0 <= q < self.children@.len() implies (#[trigger] self.children@[q]).well_filled() by {
                                if q != last_idx {
                                    assert(self.children@[q] == s[q]);
                                }
                            }
                        }
                    }
                    Some(Arc::new(b))
                },
            }
        } else {
            proof {
                crate::summary::lemma_rebalanced_refl(target);
            }
            Some(node)
        }
    }

    /// Appends `node`, one level below this inode, after the last child:
    /// an underfilled `node` is first balanced with the last child. Where
    /// this inode is full it keeps its first `N / 2 + 1` children and the
    /// rest, followed by `node`, come back as a new inode.
    #[verifier::rlimit(100)]
    fn append_here(&mut self, node: Arc<Node<N, L>>) -> (r: Option<Self>)
        requires
            N >= 4,
            old(self).wf(),
            old(self).children@.len() >= 1,
            node.wf(),
            node.depth() + 1 == old(self).depth,
            fits_leaves(old(self).leaves() + node.leaves()),
        ensures
            final(self).wf(),
            final(self).depth == old(self).depth,
            final(self).children@.len() >= 1,
            match r {
                None => rebalanced(final(self).leaves(), old(self).leaves() + node.leaves()),
                Some(o) => {
                    &&& o.wf()
                    &&& o.depth == old(self).depth
                    &&& o.children@.len() >= 1
                    &&& rebalanced(final(self).leaves() + o.leaves(), old(self).leaves() + node.leaves())
                    &&& final(self).children@.len() == N / 2 + 1
                    &&& o.children@.len() >= N / 2
                },
            },
            final(self).children@.len() >= old(self).children@.len() || final(self).children@.len() == N / 2 + 1,
            all_filled(old(self).children@) && node.filled() ==> all_filled(final(self).children@)
                && (r matches Some(o) ==> all_filled(o.children@)),
    {
        let ghost target = self.leaves() + node.leaves();
        let node = match self.absorb_into_last(node) {
            None => return None,
            Some(n) => n,
        };
        let ghost cur = self.leaves() + node.leaves();
        proof {
            self.lemma_shallow();
            crate::summary::lemma_rebalanced_within(cur, target);
            lemma_fits_within(cur, target);
        }
        match self.push_or_split(node) {
            None => None,
            Some(o) => Some(o),
        }
    }

    /// Appends `node` after the last child; where this inode is full it
    /// keeps its first `N / 2 + 1` children and the rest, followed by
    /// `node`, come back as a new inode.
    #[verifier::rlimit(100)]
    fn push_or_split(&mut self, node: Arc<Node<N, L>>) -> (r: Option<Self>)
        requires
            N >= 4,
            old(self).wf(),
            old(self).children@.len() >= 1,
            node.wf(),
            node.depth() + 1 == old(self).depth,
            fits_leaves(old(self).leaves() + node.leaves()),
        ensures
            final(self).wf(),
            final(self).depth == old(self).depth,
            final(self).children@.len() >= 1,
            match r {
                None => final(self).leaves() == old(self).leaves() + node.leaves(),
                Some(o) => {
                    &&& o.wf()
                    &&& o.depth == old(self).depth
                    &&& o.children@.len() >= 1
                    &&& final(self).leaves() + o.leaves() == old(self).leaves() + node.leaves()
                    &&& final(self).children@.len() == N / 2 + 1
                    &&& o.children@.len() >= N / 2
                },
            },
            final(self).children@.len() >= old(self).children@.len() || final(self).children@.len() == N / 2 + 1,
            all_filled(old(self).children@) && node.well_filled() ==> all_filled(final(self).children@)
                && (r matches Some(o) ==> all_filled(o.children@)),
    {
        let ghost cur = self.leaves() + node.leaves();
        let ghost pre = self.children@;
        if !self.is_full() {
            self.push(node);
            proof {
                let t = self.children@;
                assert(t.drop_last() =~= pre);
                assert(t.last() == node);
                assert(self.leaves() == cur);
                if all_filled(pre) && node.well_filled() {
                    assert forall|q: int| 0 <= q < t.len() implies (#[trigger] t[q]).well_filled() by {
                        if q < pre.len() {
                            assert(t[q] == pre[q]);
                        }
                    }
                }
            }
            return None;
        }
        let ghost s = self.children@;
        let ghost before = self.leaves();
        let min = N / 2;
        let len = self.len();
        let moved = self.drain(min + 1, len);
        proof {
            let p = s.subrange(0, min + 1);
            assert(s =~= p + moved@);
            lemma_leaves_of_concat(p, moved@);
            assert(self.children@ =~= p);
            assert(before + node.leaves() =~= leaves_of(p) + leaves_of(moved@) + node.leaves());
            assert(leaves_of(p) + (leaves_of(moved@) + node.leaves()) + Seq::<L>::empty() =~= before
                + node.leaves());
            lemma_fits_leaves_sub(leaves_of(p), leaves_of(moved@) + node.leaves(), Seq::<L>::empty());
            lemma_fits_leaves_sub(leaves_of(p), leaves_of(moved@), node.leaves());
            assert(moved@[0] == s[min + 1]);
            assert forall|j: int| 0 <= j < moved@.len() implies (#[trigger] moved@[j]).wf()
                && moved@[j].depth() == moved@[0].depth() by {
                assert(moved@[j] == s[min + 1 + j]);
            }
        }
        let mut other = Self::from_children(moved);
        proof {
            assert(leaves_of(front(s, min + 1)) + leaves_of(other.children@) + node.leaves()
                =~= before + node.leaves()) by {
                lemma_leaves_of_concat(front(s, min + 1), other.children@);
                assert(s =~= front(s, min + 1) + other.children@);
            }
            lemma_fits_leaves_sub(leaves_of(front(s, min + 1)), other.leaves() + node.leaves(), Seq::<L>::empty());
            assert(leaves_of(front(s, min + 1)) + (other.leaves() + node.leaves()) + Seq::<L>::empty()
                =~= before + node.leaves());
        }
        other.push(node);
        proof {
            let t = other.children@;
            assert(t.drop_last() =~= back(s, min + 1));
            assert(t.last() == node);
            assert(self.leaves() + other.leaves() =~= before + node.leaves());
            if all_filled(s) && node.well_filled() {
                assert forall|q: int| 0 <= q < t.len() implies (#[trigger] t[q]).well_filled() by {
                    if q < t.len() - 1 {
                        assert(t[q] == s[min + 1 + q]);
                    }
                }
                assert forall|q: int| 0 <= q < self.children@.len() implies (#[trigger] self.children@[q]).well_filled() by {
                    assert(self.children@[q] == s[q]);
                }
            }
        }
        Some(other)
    }
}

impl<const N: usize, L: BalancedLeaf> Inode<N, L> {
    /// Appends `node` at its own depth along the right edge of this
    /// subtree. Where every inode on the way down is full, returns a new
    /// inode of this inode's depth to stand right after it.
    #[verifier::rlimit(100)]
    pub fn append_at_depth(&mut self, node: Arc<Node<N, L>>) -> (r: Option<Self>)
        requires
            N >= 4,
            old(self).wf(),
            old(self).children@.len() >= 1,
            node.wf(),
            node.depth() < old(self).depth,
            fits_leaves(old(self).leaves() + node.leaves()),
        ensures
            final(self).wf(),
            final(self).depth == old(self).depth,
            final(self).children@.len() >= 1,
            match r {
                None => rebalanced(final(self).leaves(), old(self).leaves() + node.leaves()),
                Some(o) => {
                    &&& o.wf()
                    &&& o.depth == old(self).depth
                    &&& o.children@.len() >= 1
                    &&& rebalanced(final(self).leaves() + o.leaves(), old(self).leaves() + node.leaves())
                    &&& final(self).children@.len() == N / 2 + 1
                    &&& o.children@.len() >= N / 2
                },
            },
            final(self).children@.len() >= old(self).children@.len() || final(self).children@.len() == N / 2 + 1,
            all_filled(old(self).children@) && node.filled() ==> all_filled(final(self).children@)
                && (r matches Some(o) ==> all_filled(o.children@)),
        decreases old(self).depth,
    {
        if self.depth <= node.depth_of() + 1 {
            return self.append_here(node);
        }
        let ghost target = self.leaves() + node.leaves();
        let ghost s = self.children@;
        let last_idx = self.len() - 1;
        let ghost x = leaves_of(s.subrange(0, last_idx as int));
        let ghost c = s[last_idx as int].leaves();
        let mut last = self.child_inode(last_idx);
        proof {
            lemma_leaves_replace_last(s, node);
            assert(target =~= x + (c + node.leaves()) + Seq::<L>::empty());
            lemma_fits_leaves_sub(x, c + node.leaves(), Seq::<L>::empty());
        }
        let extra = last.append_at_depth(node);
        let new_last = Arc::new(Node::Internal(last));
        proof {
            lemma_leaves_replace_last(s, new_last);
        }
        match extra {
            None => {
                proof {
                    lemma_rebalanced_fits(x, last.leaves(), c + node.leaves(), Seq::<L>::empty());
                    assert(x + last.leaves() + Seq::<L>::empty() =~= x + last.leaves());
                }
                self.swap(last_idx, new_last);
                None
            },
            Some(e) => {
                let ghost le = last.leaves() + e.leaves();
                proof {
                    lemma_rebalanced_fits(x, le, c + node.leaves(), Seq::<L>::empty());
                    assert(x + le + Seq::<L>::empty() =~= x + last.leaves() + e.leaves()
                        + Seq::<L>::empty());
                    lemma_fits_leaves_sub(x + last.leaves(), e.leaves(), Seq::<L>::empty());
                    assert(x + last.leaves() + Seq::<L>::empty() =~= x + last.leaves());
                }
                self.swap(last_idx, new_last);
                let enode = Arc::new(Node::Internal(e));
                proof {
                    assert(self.leaves() + enode.leaves() =~= x + le + Seq::<L>::empty());
                    crate::summary::lemma_rebalanced_within(x + le + Seq::<L>::empty(), target);
                    lemma_fits_within(x + le + Seq::<L>::empty(), target);
                }
                let ghost cur = self.leaves() + enode.leaves();
                let r = self.append_here(enode);
                proof {
                    match r {
                        None => crate::summary::lemma_rebalanced_trans(self.leaves(), cur, target),
                        Some(ref o) => crate::summary::lemma_rebalanced_trans(
                            self.leaves() + o.leaves(),
                            cur,
                            target,
                        ),
                    }
                }
                r
            },
        }
    }

    /// Where `node`, one level below this inode, is underfilled, balances
    /// it with the first child: returns what is left of it to prepend, or
    /// nothing where it merged into the first child.
    #[verifier::rlimit(100)]
    fn absorb_into_first(&mut self, node: Arc<Node<N, L>>) -> (r: Option<Arc<Node<N, L>>>)
        requires
            N >= 4,
            old(self).wf(),
            old(self).children@.len() >= 1,
            node.wf(),
            node.depth() + 1 == old(self).depth,
            fits_leaves(node.leaves() + old(self).leaves()),
        ensures
            final(self).wf(),
            final(self).depth == old(self).depth,
            final(self).children@.len() == old(self).children@.len(),
            match r {
                None => rebalanced(final(self).leaves(), node.leaves() + old(self).leaves()),
                Some(n) => {
                    &&& n.wf()
                    &&& n.depth() + 1 == old(self).depth
                    &&& rebalanced(n.leaves() + final(self).leaves(), node.leaves() + old(self).leaves())
                },
            },
            all_filled(old(self).children@) && node.filled() ==> all_filled(final(self).children@)
                && (r matches Some(n) ==> n.well_filled()),
    {
        let ghost target = node.leaves() + self.leaves();
        if node.is_underfilled() {
            let ghost s = self.children@;
            let ghost y = leaves_of(s.subrange(1, s.len() as int));
            let ghost c = s[0].leaves();
            proof {
                lemma_leaves_replace_first(s, node);
                assert(target =~= Seq::<L>::empty() + (node.leaves() + c) + y);
                lemma_fits_leaves_sub(Seq::<L>::empty(), node.leaves() + c, y);
            }
            let (a, b) = balance_nodes(&node, &self.children[0]);
            match b {
                None => {
                    proof {
                        lemma_rebalanced_fits(Seq::<L>::empty(), a.leaves(), node.leaves() + c, y);
                        lemma_leaves_replace_first(s, Arc::new(a));
                        assert(Seq::<L>::empty() + a.leaves() + y =~= a.leaves() + y);
                    }
                    self.swap(0, Arc::new(a));
                    None
                },
                Some(b) => {
                    proof {
                        let ab = a.leaves() + b.leaves();
                        lemma_rebalanced_fits(Seq::<L>::empty(), ab, node.leaves() + c, y);
                        assert(Seq::<L>::empty() + ab + y =~= a.leaves() + b.leaves() + y);
                        lemma_fits_leaves_sub(a.leaves(), b.leaves(), y);
                        assert(Seq::<L>::empty() + b.leaves() + y =~= b.leaves() + y);
                        lemma_fits_leaves_sub(Seq::<L>::empty(), b.leaves(), y);
                        lemma_leaves_replace_first(s, Arc::new(b));
                        assert(Seq::<L>::empty() + ab + y =~= a.leaves() + (b.leaves() + y));
                    }
                    self.swap(0, Arc::new(b));
                    Some(Arc::new(a))
                },
            }
        } else {
            proof {
                crate::summary::lemma_rebalanced_refl(target);
            }
            Some(node)
        }
    }

    /// Puts `node` before the first child; where this inode is full it
    /// keeps all but its first `N / 2` children, and those, preceded by
    /// `node`, come back as a new inode.
    #[verifier::rlimit(100)]
    fn insert_or_split(&mut self, node: Arc<Node<N, L>>) -> (r: Option<Self>)
        requires
            N >= 4,
            old(self).wf(),
            old(self).children@.len() >= 1,
            node.wf(),
            node.depth() + 1 == old(self).depth,
            fits_leaves(node.leaves() + old(self).leaves()),
        ensures
            final(self).wf(),
            final(self).depth == old(self).depth,
            final(self).children@.len() >= 1,
            match r {
                None => final(self).leaves() == node.leaves() + old(self).leaves(),
                Some(o) => {
                    &&& o.wf()
                    &&& o.depth == old(self).depth
                    &&& o.children@.len() >= 1
                    &&& o.leaves() + final(self).leaves() == node.leaves() + old(self).leaves()
                },
            },
            r matches Some(o) ==> o.children@.len() == N / 2 + 1 && final(self).children@.len()
                == old(self).children@.len() - N / 2 && old(self).children@.len() == N,
            r is None ==> final(self).children@.len() == old(self).children@.len() + 1,
            all_filled(old(self).children@) && node.well_filled() ==> all_filled(final(self).children@)
                && (r matches Some(o) ==> all_filled(o.children@)),
    {
        let ghost s = self.children@;
        let ghost before = self.leaves();
        proof {
            lemma_fits_leaves_comm(node.leaves(), before);
        }
        if !self.is_full() {
            self.insert(0, node);
            proof {
                assert(self.children@ =~= seq![node] + s);
                lemma_leaves_of_concat(seq![node], s);
                lemma_leaves_of_single(node);
                if all_filled(s) && node.well_filled() {
                    assert forall|q: int| 0 <= q < self.children@.len() implies (#[trigger] self.children@[q]).well_filled() by {
                        if q > 0 {
                            assert(self.children@[q] == s[q - 1]);
                        }
                    }
                }
            }
            return None;
        }
        let min = N / 2;
        let len = self.len();
        let moved = self.drain(0, min);
        proof {
            let q = s.subrange(min as int, len as int);
            assert(s =~= moved@ + q);
            lemma_leaves_of_concat(moved@, q);
            assert(self.children@ =~= q);
            assert(node.leaves() + before =~= node.leaves() + leaves_of(moved@) + leaves_of(q));
            lemma_fits_leaves_sub(node.leaves(), leaves_of(moved@), leaves_of(q));
            lemma_fits_leaves_sub(node.leaves() + leaves_of(moved@), leaves_of(q), Seq::<L>::empty());
            assert(node.leaves() + leaves_of(moved@) + leaves_of(q) + Seq::<L>::empty() =~= node.leaves() + before);
            assert(node.leaves() + leaves_of(moved@) + Seq::<L>::empty() =~= node.leaves() + leaves_of(moved@));
            lemma_fits_leaves_comm(node.leaves(), leaves_of(moved@));
            assert(moved@[0] == s[0]);
            assert forall|j: int| 0 <= j < moved@.len() implies (#[trigger] moved@[j]).wf()
                && moved@[j].depth() == moved@[0].depth() by {
                assert(moved@[j] == s[j]);
            }
        }
        let ghost mv = moved@;
        let mut other = Self::from_children(moved);
        other.insert(0, node);
        proof {
            assert(other.children@ =~= seq![node] + mv);
            lemma_leaves_of_concat(seq![node], mv);
            lemma_leaves_of_single(node);
            assert(other.leaves() + self.leaves() =~= node.leaves() + before);
            if all_filled(s) && node.well_filled() {
                assert forall|q: int| 0 <= q < self.children@.len() implies (#[trigger] self.children@[q]).well_filled() by {
                    assert(self.children@[q] == s[min + q]);
                }
                assert forall|q: int| 0 <= q < other.children@.len() implies (#[trigger] other.children@[q]).well_filled() by {
                    if q > 0 {
                        assert(other.children@[q] == mv[q - 1]);
                        assert(mv[q - 1] == s[q - 1]);
                    }
                }
            }
        }
        Some(other)
    }

    /// Prepends `node` at its own depth along the left edge of this
    /// subtree. Where every inode on the way down is full, returns a new
    /// inode of this inode's depth to stand right before it.
    #[verifier::rlimit(100)]
    pub fn prepend_at_depth(&mut self, node: Arc<Node<N, L>>) -> (r: Option<Self>)
        requires
            N >= 4,
            old(self).wf(),
            old(self).children@.len() >= 1,
            node.wf(),
            node.depth() < old(self).depth,
            fits_leaves(node.leaves() + old(self).leaves()),
        ensures
            final(self).wf(),
            final(self).depth == old(self).depth,
            final(self).children@.len() >= 1,
            match r {
                None => rebalanced(final(self).leaves(), node.leaves() + old(self).leaves()),
                Some(o) => {
                    &&& o.wf()
                    &&& o.depth == old(self).depth
                    &&& o.children@.len() >= 1
                    &&& rebalanced(o.leaves() + final(self).leaves(), node.leaves() + old(self).leaves())
                },
            },
            r matches Some(o) ==> o.children@.len() == N / 2 + 1 && N / 2 <= final(self).children@.len() <= N,
            r is None ==> final(self).children@.len() >= old(self).children@.len(),
            all_filled(old(self).children@) && node.filled() ==> all_filled(final(self).children@)
                && (r matches Some(o) ==> all_filled(o.children@)),
        decreases old(self).depth,
    {
        let ghost target = node.leaves() + self.leaves();
        let node = if self.depth > node.depth_of() + 1 {
            let ghost s = self.children@;
            let ghost y = leaves_of(s.subrange(1, s.len() as int));
            let ghost c = s[0].leaves();
            let mut first = self.child_inode(0);
            proof {
                lemma_leaves_replace_first(s, node);
                assert(target =~= Seq::<L>::empty() + (node.leaves() + c) + y);
                lemma_fits_leaves_sub(Seq::<L>::empty(), node.leaves() + c, y);
                assert(Seq::<L>::empty() + (node.leaves() + c) + Seq::<L>::empty() =~= node.leaves() + c);
            }
            let extra = first.prepend_at_depth(node);
            let new_first = Arc::new(Node::Internal(first));
            proof {
                lemma_leaves_replace_first(s, new_first);
            }
            match extra {
                None => {
                    proof {
                        lemma_rebalanced_fits(Seq::<L>::empty(), first.leaves(), node.leaves() + c, y);
                        assert(Seq::<L>::empty() + first.leaves() + y =~= first.leaves() + y);
                    }
                    self.swap(0, new_first);
                    return None;
                },
                Some(e) => {
                    let ghost ef = e.leaves() + first.leaves();
                    proof {
                        lemma_rebalanced_fits(Seq::<L>::empty(), ef, node.leaves() + c, y);
                        assert(Seq::<L>::empty() + ef + y =~= e.leaves() + first.leaves() + y);
                        lemma_fits_leaves_sub(e.leaves(), first.leaves(), y);
                        assert(Seq::<L>::empty() + first.leaves() + y =~= first.leaves() + y);
                        lemma_fits_leaves_sub(Seq::<L>::empty(), first.leaves(), y);
                    }
                    self.swap(0, new_first);
                    let enode = Arc::new(Node::Internal(e));
                    proof {
                        assert(enode.leaves() + self.leaves() =~= Seq::<L>::empty() + ef + y);
                    }
                    enode
                },
            }
        } else {
            proof {
                crate::summary::lemma_rebalanced_refl(target);
            }
            node
        };
        let ghost cur = node.leaves() + self.leaves();
        proof {
            self.lemma_shallow();
            crate::summary::lemma_rebalanced_within(cur, target);
            lemma_fits_within(cur, target);
        }
        let node = match self.absorb_into_first(node) {
            None => {
                proof {
                    crate::summary::lemma_rebalanced_trans(self.leaves(), cur, target);
                }
                return None;
            },
            Some(n) => n,
        };
        let ghost cur2 = node.leaves() + self.leaves();
        proof {
            crate::summary::lemma_rebalanced_trans(cur2, cur, target);
            crate::summary::lemma_rebalanced_within(cur2, target);
            lemma_fits_within(cur2, target);
        }
        let r = self.insert_or_split(node);
        proof {
            match r {
                None => crate::summary::lemma_rebalanced_trans(self.leaves(), cur2, target),
                Some(ref o) => crate::summary::lemma_rebalanced_trans(o.leaves() + self.leaves(), cur2, target),
            }
        }
        r
    }
}

impl<const N: usize, L: BalancedLeaf> Inode<N, L> {
    /// Inserts `node`, at least two levels below this inode, so that it
    /// follows the leaves of the first `child_offset` children: it is
    /// appended along the right edge of the child before that position, or
    /// prepended along the left edge of the first child. An inode that
    /// overflows from there is inserted into this inode.
    pub fn insert_at_depth(&mut self, child_offset: usize, node: Arc<Node<N, L>>)
        requires
            N >= 4,
            old(self).wf(),
            1 <= old(self).children@.len() < N,
            child_offset <= old(self).children@.len(),
            old(self).depth >= 2,
            node.wf(),
            node.depth() + 1 < old(self).depth,
            fits_leaves(old(self).leaves() + node.leaves()),
        ensures
            final(self).wf(),
            final(self).depth == old(self).depth,
            final(self).children@.len() >= 1,
            rebalanced(
                final(self).leaves(),
                leaves_of(old(self).children@.subrange(0, child_offset as int)) + node.leaves()
                    + leaves_of(
                    old(self).children@.subrange(child_offset as int, old(self).children@.len() as int),
                ),
            ),
    {
        let ghost s = self.children@;
        let ghost len = s.len() as int;
        let ghost off = child_offset as int;
        proof {
            lemma_leaves_of_concat(s.subrange(0, off), s.subrange(off, len));
            assert(s =~= s.subrange(0, off) + s.subrange(off, len));
        }
        if child_offset > 0 {
            self.insert_after_child(child_offset - 1, node);
        } else {
            self.insert_before_first(node);
            proof {
                assert(s.subrange(0, 0) =~= Seq::<Arc<Node<N, L>>>::empty());
                assert(leaves_of(Seq::<Arc<Node<N, L>>>::empty()) =~= Seq::<L>::empty());
                assert(s.subrange(0, len) =~= s);
                assert(Seq::<L>::empty() + node.leaves() + old(self).leaves() =~= node.leaves() + old(self).leaves());
            }
        }
    }

    #[verifier::rlimit(100)]
    fn insert_after_child(&mut self, i: usize, node: Arc<Node<N, L>>)
        requires
            N >= 4,
            old(self).wf(),
            1 <= old(self).children@.len() < N,
            i < old(self).children@.len(),
            old(self).depth >= 2,
            node.wf(),
            node.depth() + 1 < old(self).depth,
            fits_leaves(old(self).leaves() + node.leaves()),
        ensures
            final(self).wf(),
            final(self).depth == old(self).depth,
            final(self).children@.len() >= 1,
            rebalanced(
                final(self).leaves(),
                leaves_of(old(self).children@.subrange(0, i + 1)) + node.leaves()
                    + leaves_of(old(self).children@.subrange(i + 1, old(self).children@.len() as int)),
            ),
    {
        let ghost s = self.children@;
        let ghost len = s.len() as int;
        let ghost off = i + 1;
        let child_offset = i + 1;
        let ghost target = leaves_of(s.subrange(0, off)) + node.leaves() + leaves_of(s.subrange(off, len));
        proof {
            lemma_leaves_of_concat(s.subrange(0, off), s.subrange(off, len));
            assert(s =~= s.subrange(0, off) + s.subrange(off, len));
            assert(leaves_of(s.subrange(0, off)) + leaves_of(s.subrange(off, len)) + node.leaves() =~= self.leaves() + node.leaves());
            lemma_fits_move_last(leaves_of(s.subrange(0, off)), leaves_of(s.subrange(off, len)), node.leaves());
            lemma_fits_move_last(leaves_of(s.subrange(0, off)), node.leaves(), leaves_of(s.subrange(off, len)));
        }
        let i = child_offset - 1;
        let ghost x = leaves_of(s.subrange(0, i as int));
        let ghost c = s[i as int].leaves();
        let ghost y = leaves_of(s.subrange(off, len));
        let mut prev = self.child_inode(i);
        proof {
            lemma_leaves_of_split(s, i as int);
            assert(s.subrange(0, off) =~= s.subrange(0, i as int) + seq![s[i as int]]);
            lemma_leaves_of_concat(s.subrange(0, i as int), seq![s[i as int]]);
            lemma_leaves_of_single(s[i as int]);
            assert(target =~= x + (c + node.leaves()) + y);
            lemma_fits_leaves_sub(x, c + node.leaves(), y);
        }
        let extra = prev.append_at_depth(node);
        let new_prev = Arc::new(Node::Internal(prev));
        let ghost t = s.update(i as int, new_prev);
        proof {
            lemma_leaves_of_split(t, i as int);
            assert(t.subrange(0, i as int) =~= s.subrange(0, i as int));
            assert(t.subrange(off, len) =~= s.subrange(off, len));
        }
        match extra {
            None => {
                proof {
                    lemma_rebalanced_fits(x, prev.leaves(), c + node.leaves(), y);
                }
                self.swap(i, new_prev);
            },
            Some(e) => {
                let ghost pe = prev.leaves() + e.leaves();
                proof {
                    lemma_rebalanced_fits(x, pe, c + node.leaves(), y);
                    assert(x + pe + y =~= x + prev.leaves() + e.leaves() + y);
                    lemma_fits_leaves_sub(x + prev.leaves(), e.leaves(), y);
                }
                self.swap(i, new_prev);
                let enode = Arc::new(Node::Internal(e));
                proof {
                    lemma_fits_move_last(x + prev.leaves(), e.leaves(), y);
                    assert(x + prev.leaves() + y + e.leaves() =~= self.leaves() + enode.leaves());
                }
                self.insert(child_offset, enode);
                proof {
                    let u = self.children@;
                    assert(u =~= s.subrange(0, i as int) + seq![new_prev, enode] + s.subrange(off, len));
                    lemma_leaves_of_parts(s.subrange(0, i as int), seq![new_prev, enode], s.subrange(off, len));
                    assert(seq![new_prev, enode] =~= seq![new_prev] + seq![enode]);
                    lemma_leaves_of_concat(seq![new_prev], seq![enode]);
                    lemma_leaves_of_single(new_prev);
                    lemma_leaves_of_single(enode);
                    assert(self.leaves() =~= x + pe + y);
                }
            },
        }
    }

    #[verifier::rlimit(100)]
    fn insert_before_first(&mut self, node: Arc<Node<N, L>>)
        requires
            N >= 4,
            old(self).wf(),
            1 <= old(self).children@.len() < N,
            old(self).depth >= 2,
            node.wf(),
            node.depth() + 1 < old(self).depth,
            fits_leaves(old(self).leaves() + node.leaves()),
        ensures
            final(self).wf(),
            final(self).depth == old(self).depth,
            final(self).children@.len() >= 1,
            rebalanced(final(self).leaves(), node.leaves() + old(self).leaves()),
    {
        let ghost s = self.children@;
        let ghost len = s.len() as int;
        let ghost target = node.leaves() + self.leaves();
        proof {
            lemma_fits_leaves_comm(self.leaves(), node.leaves());
        }
        let ghost c = s[0].leaves();
        let ghost y = leaves_of(s.subrange(1, len));
        let mut first = self.child_inode(0);
        proof {
            lemma_leaves_replace_first(s, node);
            assert(s.subrange(0, 0) =~= Seq::<Arc<Node<N, L>>>::empty());
            assert(s.subrange(0, len) =~= s);
            assert(target =~= Seq::<L>::empty() + (node.leaves() + c) + y);
            lemma_fits_leaves_sub(Seq::<L>::empty(), node.leaves() + c, y);
            assert(Seq::<L>::empty() + (node.leaves() + c) + Seq::<L>::empty() =~= node.leaves() + c);
        }
        let extra = first.prepend_at_depth(node);
        let new_first = Arc::new(Node::Internal(first));
        proof {
            lemma_leaves_replace_first(s, new_first);
        }
        match extra {
            None => {
                proof {
                    lemma_rebalanced_fits(Seq::<L>::empty(), first.leaves(), node.leaves() + c, y);
                    assert(Seq::<L>::empty() + first.leaves() + y =~= first.leaves() + y);
                }
                self.swap(0, new_first);
            },
            Some(e) => {
                let ghost ef = e.leaves() + first.leaves();
                proof {
                    lemma_rebalanced_fits(Seq::<L>::empty(), ef, node.leaves() + c, y);
                    assert(Seq::<L>::empty() + ef + y =~= e.leaves() + (first.leaves() + y));
                    lemma_fits_leaves_sub(e.leaves(), first.leaves(), y);
                    lemma_fits_leaves_sub(Seq::<L>::empty(), first.leaves(), y);
                    assert(Seq::<L>::empty() + first.leaves() + y =~= first.leaves() + y);
                }
                self.swap(0, new_first);
                let enode = Arc::new(Node::Internal(e));
                proof {
                    lemma_fits_leaves_comm(enode.leaves(), self.leaves());
                    assert(enode.leaves() + self.leaves() =~= Seq::<L>::empty() + ef + y);
                }
                self.insert(0, enode);
                proof {
                    let u = self.children@;
                    assert(u =~= seq![enode] + with_first(s, new_first));
                    lemma_leaves_of_concat(seq![enode], with_first(s, new_first));
                    lemma_leaves_of_single(enode);
                    assert(self.leaves() =~= Seq::<L>::empty() + ef + y);
                }
            },
        }
    }
}

impl<const N: usize, L: Leaf> Inode<N, L> {
    /// Inserts `children`, in order, so that the first of them has
    /// `child_offset` siblings on its left. Where they do not all fit, this
    /// inode keeps its first children (at least `N / 2`), and the rest,
    /// in order, come back packed into inodes of this inode's depth, each
    /// with `N / 2` to `N` children, to stand right after it.
    #[verifier::rlimit(100)]
    pub fn insert_children(&mut self, child_offset: usize, children: Vec<Arc<Node<N, L>>>) -> (r:
        Option<Vec<Arc<Node<N, L>>>>)
        requires
            N >= 4,
            old(self).wf(),
            old(self).children@.len() >= 1,
            child_offset <= old(self).children@.len(),
            children@.len() >= 1,
            all_wf_at(children@, old(self).depth - 1),
            fits_leaves(
                leaves_of(
                    old(self).children@.subrange(0, child_offset as int) + children@
                        + old(self).children@.subrange(
                        child_offset as int,
                        old(self).children@.len() as int,
                    ),
                ),
            ),
        ensures
            (r is None) == (old(self).children@.len() + children@.len() <= N),
            final(self).wf(),
            final(self).depth == old(self).depth,
            match r {
                None => final(self).children@ == old(self).children@.subrange(0, child_offset as int)
                    + children@ + old(self).children@.subrange(
                    child_offset as int,
                    old(self).children@.len() as int,
                ),
                Some(v) => {
                    &&& N / 2 <= final(self).children@.len() <= N
                    &&& all_wf_at(v@, old(self).depth as int)
                    &&& all_sized(v@)
                    &&& v@.len() >= 1
                    &&& final(self).children@ + grandchildren(v@) == old(self).children@.subrange(
                        0,
                        child_offset as int,
                    ) + children@ + old(self).children@.subrange(
                        child_offset as int,
                        old(self).children@.len() as int,
                    )
                    &&& final(self).leaves() + leaves_of(v@) == leaves_of(
                        old(self).children@.subrange(0, child_offset as int) + children@
                            + old(self).children@.subrange(
                            child_offset as int,
                            old(self).children@.len() as int,
                        ),
                    )
                },
            },
    {
        let ghost s = self.children@;
        let ghost whole = s.subrange(0, child_offset as int) + children@ + s.subrange(
            child_offset as int,
            s.len() as int,
        );
        let len = self.len();
        let min = N / 2;
        if children.len() <= N - len {
            let mut j: usize = 0;
            while j < children.len()
                invariant
                    j <= children@.len(),
                    len == s.len(),
                    child_offset <= s.len(),
                    len <= N,
                    children@.len() <= N - len,
                    self.wf(),
                    self.depth == old(self).depth,
                    self.children@.len() >= 1,
                    all_wf_at(children@, self.depth - 1),
                    fits_leaves(leaves_of(whole)),
                    whole == s.subrange(0, child_offset as int) + children@ + s.subrange(
                        child_offset as int,
                        s.len() as int,
                    ),
                    self.children@ == s.subrange(0, child_offset as int) + children@.subrange(0, j as int)
                        + s.subrange(child_offset as int, s.len() as int),
                decreases children@.len() - j,
            {
                let child = share(&children[j]);
                proof {
                    let x = s.subrange(0, child_offset as int) + children@.subrange(0, j as int);
                    let y = children@.subrange(j as int + 1, children@.len() as int) + s.subrange(
                        child_offset as int,
                        s.len() as int,
                    );
                    assert(whole =~= x + seq![child] + y);
                    lemma_leaves_of_parts(x, seq![child], y);
                    lemma_leaves_of_single(child);
                    lemma_fits_leaves_sub(leaves_of(x), child.leaves(), leaves_of(y));
                    let z = s.subrange(child_offset as int, s.len() as int);
                    assert(self.children@ == x + z);
                    lemma_leaves_of_concat(x, z);
                    assert(whole =~= x + seq![child] + (children@.subrange(j as int + 1, children@.len() as int) + z));
                    lemma_leaves_of_parts(x, seq![child], children@.subrange(j as int + 1, children@.len() as int) + z);
                    lemma_leaves_of_concat(children@.subrange(j as int + 1, children@.len() as int), z);
                    assert(leaves_of(whole) =~= leaves_of(x) + child.leaves() + leaves_of(
                        children@.subrange(j as int + 1, children@.len() as int),
                    ) + leaves_of(z));
                    lemma_fits_leaves_sub(
                        leaves_of(x) + child.leaves(),
                        leaves_of(children@.subrange(j as int + 1, children@.len() as int)),
                        leaves_of(z),
                    );
                    crate::summary::lemma_fits_move_last(leaves_of(x), child.leaves(), leaves_of(z));
                }
                self.insert(child_offset + j, child);
                j = j + 1;
                proof {
                    assert(self.children@ =~= s.subrange(0, child_offset as int) + children@.subrange(
                        0,
                        j as int,
                    ) + s.subrange(child_offset as int, s.len() as int));
                }
            }
            proof {
                assert(children@.subrange(0, j as int) =~= children@);
            }
            return None;
        }
        let mut tail = self.drain(child_offset, len);
        let mut rest = children;
        rest.append(&mut tail);
        proof {
            assert(self.children@ + rest@ =~= whole);
        }
        while self.len() < min
            invariant
                min == N / 2,
                N >= 4,
                self.wf(),
                self.depth == old(self).depth,
                self.children@ + rest@ == whole,
                whole.len() > N,
                all_wf_at(whole, self.depth - 1),
                fits_leaves(leaves_of(whole)),
                self.children@.len() <= N,
            decreases min - self.children@.len(),
        {
            let child = rest.remove(0);
            proof {
                let x = self.children@;
                let y = rest@;
                assert(whole =~= x + seq![child] + y);
                lemma_leaves_of_parts(x, seq![child], y);
                lemma_leaves_of_single(child);
                lemma_fits_leaves_sub(leaves_of(x), child.leaves(), leaves_of(y));
                lemma_fits_leaves_sub(leaves_of(x) + child.leaves(), leaves_of(y), Seq::<L>::empty());
                assert(leaves_of(x) + child.leaves() + leaves_of(y) + Seq::<L>::empty() =~= leaves_of(x)
                    + child.leaves() + leaves_of(y));
                assert(leaves_of(x) + child.leaves() + Seq::<L>::empty() =~= leaves_of(x) + child.leaves());
                assert(child == whole[x.len() as int]);
            }
            self.push(child);
            proof {
                assert(self.children@ + rest@ =~= whole);
            }
        }
        if rest.len() < min {
            let missing = min - rest.len();
            let cur = self.len();
            let mut moved = self.drain(cur - missing, cur);
            moved.append(&mut rest);
            rest = moved;
            proof {
                assert(self.children@ + rest@ =~= whole);
            }
        }
        proof {
            let x = self.children@;
            let y = rest@;
            lemma_leaves_of_concat(x, y);
            lemma_fits_leaves_sub(leaves_of(x), leaves_of(y), Seq::<L>::empty());
            assert(leaves_of(x) + leaves_of(y) + Seq::<L>::empty() =~= leaves_of(x) + leaves_of(y));
            assert(rest@[0] == whole[x.len() as int]);
            assert forall|j: int| 0 <= j < rest@.len() implies (#[trigger] rest@[j]).wf()
                && rest@[j].depth() == rest@[0].depth() by {
                assert(rest@[j] == whole[x.len() + j]);
            }
        }
        let ghost rv = rest@;
        let segments = segment(rest);
        proof {
            lemma_leaves_of_concat(self.children@, rv);
            assert(self.children@ + grandchildren(segments@) == whole);
        }
        Some(segments)
    }
}

/// `s` with its first element replaced by `n`.
spec fn with_first<T>(s: Seq<T>, n: T) -> Seq<T> {
    s.update(0, n)
}

/// The first `k` elements of `s`.
spec fn front<T>(s: Seq<T>, k: int) -> Seq<T> {
    s.subrange(0, k)
}

/// The elements of `s` from index `k` on.
spec fn back<T>(s: Seq<T>, k: int) -> Seq<T> {
    s.subrange(k, s.len() as int)
}

} // verus!
