use std::sync::Arc;
use vstd::prelude::*;

use crate::summary::{
    fits, fits_leaves, lemma_fits_le, lemma_fits_leaves_comm, lemma_fits_leaves_sub,
    lemma_minus_plus, lemma_total_concat, lemma_total_len, lemma_total_middle, lemma_total_single,
    total, zeros, Leaf, Metric,
};

verus! {

broadcast use vstd::std_specs::vec::group_vec_axioms;

/// A leaf value together with its cached summary.
pub struct Lnode<L: Leaf> {
    pub value: L,
    pub summary: L::Summary,
}

/// An internal node: between one and `N` children, all of the same depth,
/// with the summary and the leaf count of its subtree cached.
pub struct Inode<const N: usize, L: Leaf> {
    pub children: Vec<Arc<Node<N, L>>>,
    pub summary: L::Summary,
    pub depth: usize,
    pub leaf_count: usize,
}

pub enum Node<const N: usize, L: Leaf> {
    Internal(Inode<N, L>),
    Leaf(Lnode<L>),
}

/// The leaves below a sequence of sibling nodes, left to right.
pub open spec fn leaves_of<const N: usize, L: Leaf>(s: Seq<Arc<Node<N, L>>>) -> Seq<L>
    decreases s,
{
    if s.len() == 0 {
        Seq::empty()
    } else {
        leaves_of(s.drop_last()) + s.last().leaves()
    }
}

/// Every node of the sequence is well formed and has depth `d`.
pub open spec fn all_wf_at<const N: usize, L: Leaf>(s: Seq<Arc<Node<N, L>>>, d: int) -> bool {
    forall|j: int| 0 <= j < s.len() ==> (#[trigger] s[j]).wf() && s[j].depth() == d
}

impl<L: Leaf> Lnode<L> {
    pub open spec fn wf(&self) -> bool {
        &&& L::counters(self.summary) == self.value.measures()
        &&& fits(self.value.measures())
    }

    pub fn from_value(value: L) -> (r: Self)
        requires
            fits(value.measures()),
        ensures
            r.value == value,
            r.wf(),
    {
        let summary = value.summarize();
        Lnode { value, summary }
    }

    pub fn base_measure(&self) -> (r: L::BaseMetric)
        requires
            self.wf(),
        ensures
            r.value() == self.value.measures()[<L::BaseMetric as Metric<L>>::index() as int],
    {
        self.measure::<L::BaseMetric>()
    }

    pub fn measure<M: Metric<L>>(&self) -> (r: M)
        requires
            self.wf(),
        ensures
            r.value() == self.value.measures()[M::index() as int],
    {
        proof {
            self.value.lemma_arity();
        }
        M::measure(&self.summary)
    }

    pub fn is_big_enough(&self) -> (r: bool)
        requires
            self.wf(),
        ensures
            r == self.value.big_enough(),
    {
        self.value.is_big_enough(&self.summary)
    }

    pub fn summary(&self) -> (r: &L::Summary)
        ensures
            *r == self.summary,
    {
        &self.summary
    }

    pub fn value(&self) -> (r: &L)
        ensures
            *r == self.value,
    {
        &self.value
    }
}

impl<const N: usize, L: Leaf> Node<N, L> {
    /// The leaves of this subtree, left to right.
    pub open spec fn leaves(&self) -> Seq<L>
        decreases self,
    {
        match self {
            Node::Leaf(l) => seq![l.value],
            Node::Internal(i) => leaves_of(i.children@),
        }
    }

    /// The children of an inode; none for a leaf.
    pub open spec fn children_of(&self) -> Seq<Arc<Node<N, L>>> {
        match self {
            Node::Internal(i) => i.children@,
            Node::Leaf(_) => Seq::empty(),
        }
    }

    pub open spec fn spec_is_internal(&self) -> bool {
        self is Internal
    }

    pub open spec fn depth(&self) -> int {
        match self {
            Node::Leaf(_) => 0,
            Node::Internal(i) => i.depth as int,
        }
    }

    pub open spec fn spec_leaf_count(&self) -> int {
        match self {
            Node::Leaf(_) => 1,
            Node::Internal(i) => i.leaf_count as int,
        }
    }

    pub open spec fn counters(&self) -> Seq<nat> {
        match self {
            Node::Leaf(l) => L::counters(l.summary),
            Node::Internal(i) => L::counters(i.summary),
        }
    }

    pub open spec fn spec_len(&self) -> int {
        match self {
            Node::Leaf(_) => 0,
            Node::Internal(i) => i.children.len() as int,
        }
    }

    /// The structural invariants hold in the whole subtree: depths agree,
    /// cached summaries and leaf counts are exact, no inode is empty or
    /// holds more than `N` children.
    pub open spec fn wf(&self) -> bool
        decreases self,
    {
        match self {
            Node::Leaf(l) => l.wf(),
            Node::Internal(i) => {
                &&& i.wf_shallow()
                &&& i.children.len() >= 1
                &&& forall|j: int|
                    0 <= j < i.children.len() ==> (#[trigger] i.children@[j]).wf()
                        && i.children@[j].depth() == i.depth - 1
            },
        }
    }

    /// Every inode strictly below this node holds at least `N / 2`
    /// children; this node itself may hold fewer.
    pub open spec fn filled(&self) -> bool
        decreases self,
    {
        match self {
            Node::Leaf(_) => true,
            Node::Internal(i) => forall|j: int|
                0 <= j < i.children.len() ==> (#[trigger] i.children@[j]).filled()
                    && (i.children@[j].spec_is_internal() ==> i.children@[j].spec_len() >= N / 2),
        }
    }

    /// The subtree is filled and, where this node is an inode, it holds at
    /// least `N / 2` children: what every child of a filled inode is.
    pub open spec fn well_filled(&self) -> bool {
        &&& self.filled()
        &&& self.spec_is_internal() ==> self.spec_len() >= N / 2
    }

    pub fn is_internal(&self) -> (r: bool)
        ensures
            r == (self is Internal),
    {
        match self {
            Node::Internal(_) => true,
            Node::Leaf(_) => false,
        }
    }

    pub fn is_leaf(&self) -> (r: bool)
        ensures
            r == (self is Leaf),
    {
        match self {
            Node::Internal(_) => false,
            Node::Leaf(_) => true,
        }
    }

    pub fn depth_of(&self) -> (r: usize)
        ensures
            r == self.depth(),
    {
        match self {
            Node::Internal(i) => i.depth,
            Node::Leaf(_) => 0,
        }
    }

    pub fn leaf_count(&self) -> (r: usize)
        ensures
            r == self.spec_leaf_count(),
    {
        match self {
            Node::Internal(i) => i.leaf_count,
            Node::Leaf(_) => 1,
        }
    }

    pub fn summary(&self) -> (r: &L::Summary)
        ensures
            L::counters(*r) == self.counters(),
    {
        match self {
            Node::Internal(i) => &i.summary,
            Node::Leaf(l) => &l.summary,
        }
    }
}

impl<const N: usize, L: Leaf> Inode<N, L> {
    /// The leaves below this inode, left to right.
    pub open spec fn leaves(&self) -> Seq<L> {
        leaves_of(self.children@)
    }

    /// The cached values agree with the children, which all sit one level
    /// below this inode. Says nothing of the children's own subtrees.
    pub open spec fn wf_shallow(&self) -> bool {
        &&& self.children.len() <= N
        &&& 1 <= self.depth < usize::MAX
        &&& L::counters(self.summary) == total(self.leaves())
        &&& fits(L::counters(self.summary))
        &&& self.leaf_count == self.leaves().len()
        &&& self.leaves().len() < usize::MAX
    }

    /// The invariants hold below this inode, which may be empty.
    pub open spec fn wf(&self) -> bool {
        &&& self.wf_shallow()
        &&& all_wf_at(self.children@, self.depth - 1)
    }
}


/// Relies on `Arc::clone`: the new handle points at the same value.
#[verifier::external_body]
pub(crate) fn share<T>(a: &Arc<T>) -> (r: Arc<T>)
    ensures
        r == *a,
{
    Arc::clone(a)
}

pub proof fn lemma_leaves_of_concat<const N: usize, L: Leaf>(
    a: Seq<Arc<Node<N, L>>>,
    b: Seq<Arc<Node<N, L>>>,
)
    ensures
        leaves_of(a + b) == leaves_of(a) + leaves_of(b),
    decreases b.len(),
{
    if b.len() == 0 {
        assert(a + b =~= a);
        assert(leaves_of(b) =~= Seq::<L>::empty());
        assert(leaves_of(a) + leaves_of(b) =~= leaves_of(a));
    } else {
        assert((a + b).drop_last() =~= a + b.drop_last());
        assert((a + b).last() == b.last());
        lemma_leaves_of_concat(a, b.drop_last());
        assert(leaves_of(a + b) =~= leaves_of(a) + leaves_of(b));
    }
}

pub proof fn lemma_leaves_of_single<const N: usize, L: Leaf>(c: Arc<Node<N, L>>)
    ensures
        leaves_of(seq![c]) == c.leaves(),
{
    assert(seq![c].drop_last() =~= Seq::<Arc<Node<N, L>>>::empty());
    assert(leaves_of(Seq::<Arc<Node<N, L>>>::empty()) =~= Seq::<L>::empty());
    assert(seq![c].last() == c);
    assert(leaves_of(seq![c]) =~= c.leaves());
}

/// The leaves of `s` split around the node at `i`.
pub proof fn lemma_leaves_of_split<const N: usize, L: Leaf>(s: Seq<Arc<Node<N, L>>>, i: int)
    requires
        0 <= i < s.len(),
    ensures
        leaves_of(s) == leaves_of(s.subrange(0, i)) + s[i].leaves() + leaves_of(
            s.subrange(i + 1, s.len() as int),
        ),
{
    let a = s.subrange(0, i);
    let c = s.subrange(i + 1, s.len() as int);
    assert(s =~= a + seq![s[i]] + c);
    lemma_leaves_of_concat(a + seq![s[i]], c);
    lemma_leaves_of_concat(a, seq![s[i]]);
    lemma_leaves_of_single(s[i]);
}

impl<const N: usize, L: Leaf> Node<N, L> {
    /// Facts that follow from the invariants of a subtree.
    pub proof fn lemma_wf(&self)
        requires
            self.wf(),
        ensures
            self.counters() == total(self.leaves()),
            self.spec_leaf_count() == self.leaves().len(),
            fits(self.counters()),
            self.counters().len() == L::arity(),
            fits_leaves(self.leaves()),
            self.leaves().len() >= 1,
            self.depth() >= 0,
        decreases self,
    {
        match self {
            Node::Leaf(l) => {
                lemma_total_single(l.value);
                l.value.lemma_arity();
            },
            Node::Internal(i) => {
                lemma_total_len(i.leaves());
                let s = i.children@;
                lemma_leaves_of_split(s, 0);
                s[0].lemma_wf();
            },
        }
    }
}

impl<const N: usize, L: Leaf> Inode<N, L> {
    /// Facts that follow from the cached values of an inode.
    pub proof fn lemma_shallow(&self)
        requires
            self.wf_shallow(),
        ensures
            L::counters(self.summary).len() == L::arity(),
            fits_leaves(self.leaves()),
    {
        lemma_total_len(self.leaves());
    }

    pub fn empty() -> (r: Self)
        ensures
            r.wf(),
            r.children@.len() == 0,
            r.depth == 1,
    {
        let r = Inode { children: Vec::new(), summary: L::empty_summary(), depth: 1, leaf_count: 0 };
        assert(r.leaves() =~= Seq::<L>::empty());
        assert(fits(zeros(L::arity())));
        r
    }

    pub fn len(&self) -> (r: usize)
        ensures
            r == self.children@.len(),
    {
        self.children.len()
    }

    pub fn depth(&self) -> (r: usize)
        ensures
            r == self.depth,
    {
        self.depth
    }

    pub fn leaf_count(&self) -> (r: usize)
        ensures
            r == self.leaf_count,
    {
        self.leaf_count
    }

    pub fn summary(&self) -> (r: &L::Summary)
        ensures
            *r == self.summary,
    {
        &self.summary
    }

    pub fn max_children() -> (r: usize)
        ensures
            r == N,
    {
        N
    }

    pub fn min_children() -> (r: usize)
        ensures
            r == N / 2,
    {
        N / 2
    }

    pub fn is_empty(&self) -> (r: bool)
        ensures
            r == (self.children@.len() == 0),
    {
        self.children.len() == 0
    }

    pub fn is_full(&self) -> (r: bool)
        ensures
            r == (self.children@.len() == N),
    {
        self.children.len() == N
    }

    pub fn is_underfilled(&self) -> (r: bool)
        ensures
            r == (self.children@.len() < N / 2),
    {
        self.children.len() < N / 2
    }

    pub fn child(&self, child_idx: usize) -> (r: &Arc<Node<N, L>>)
        requires
            child_idx < self.children@.len(),
        ensures
            *r == self.children@[child_idx as int],
    {
        &self.children[child_idx]
    }

    pub fn children(&self) -> (r: &Vec<Arc<Node<N, L>>>)
        ensures
            r@ == self.children@,
    {
        &self.children
    }

    pub fn first(&self) -> (r: &Arc<Node<N, L>>)
        requires
            self.children@.len() > 0,
        ensures
            *r == self.children@[0],
    {
        &self.children[0]
    }

    pub fn last(&self) -> (r: &Arc<Node<N, L>>)
        requires
            self.children@.len() > 0,
        ensures
            *r == self.children@.last(),
    {
        let last_idx = self.children.len() - 1;
        &self.children[last_idx]
    }

    pub fn base_measure(&self) -> (r: L::BaseMetric)
        requires
            self.wf_shallow(),
        ensures
            r.value() == total(self.leaves())[<L::BaseMetric as Metric<L>>::index() as int],
    {
        self.measure::<L::BaseMetric>()
    }

    pub fn measure<M: Metric<L>>(&self) -> (r: M)
        requires
            self.wf_shallow(),
        ensures
            r.value() == total(self.leaves())[M::index() as int],
    {
        proof {
            self.lemma_shallow();
        }
        M::measure(&self.summary)
    }

    /// Inserts `child` so that it has `child_offset` siblings on its left.
    /// An empty inode takes the depth one above the child's.
    #[verifier::rlimit(100)]
    pub fn insert(&mut self, child_offset: usize, child: Arc<Node<N, L>>)
        requires
            old(self).wf(),
            child.wf(),
            child_offset <= old(self).children@.len() < N,
            old(self).children@.len() == 0 ==> child.depth() + 1 < usize::MAX,
            old(self).children@.len() == 0 || child.depth() == old(self).depth - 1,
            fits_leaves(old(self).leaves() + child.leaves()),
        ensures
            final(self).wf(),
            final(self).children@ == old(self).children@.insert(child_offset as int, child),
            final(self).depth == (if old(self).children@.len() == 0 {
                child.depth() + 1
            } else {
                old(self).depth as int
            }),
    {
        proof {
            child.lemma_wf();
            self.lemma_shallow();
        }
        if self.children.len() == 0 {
            self.depth = child.depth_of() + 1;
        }
        let ghost s = self.children@;
        let ghost x = leaves_of(s.subrange(0, child_offset as int));
        let ghost y = leaves_of(s.subrange(child_offset as int, s.len() as int));
        proof {
            assert(s =~= s.subrange(0, child_offset as int) + s.subrange(
                child_offset as int,
                s.len() as int,
            ));
            lemma_leaves_of_concat(s.subrange(0, child_offset as int), s.subrange(child_offset as int, s.len() as int));
            let t = s.insert(child_offset as int, child);
            assert(t =~= s.subrange(0, child_offset as int) + seq![child] + s.subrange(
                child_offset as int,
                s.len() as int,
            ));
            lemma_leaves_of_concat(s.subrange(0, child_offset as int) + seq![child], s.subrange(child_offset as int, s.len() as int));
            lemma_leaves_of_concat(s.subrange(0, child_offset as int), seq![child]);
            lemma_leaves_of_single(child);
            lemma_total_middle(x, child.leaves(), y);
            lemma_total_concat(x + y, child.leaves());
            assert(x + y + child.leaves() =~= old(self).leaves() + child.leaves());
            lemma_total_len(x + y);
            lemma_minus_plus(total(x + y), total(child.leaves()));
        }
        self.leaf_count = self.leaf_count + child.leaf_count();
        L::add_summary(&mut self.summary, child.summary());
        self.children.insert(child_offset, child);
        proof {
            assert forall|j: int| 0 <= j < self.children@.len() implies (#[trigger] self.children@[j]).wf()
                && self.children@[j].depth() == self.depth - 1 by {
                if j < child_offset {
                    assert(self.children@[j] == s[j]);
                } else if j > child_offset {
                    assert(self.children@[j] == s[j - 1]);
                }
            }
        }
    }

    /// Appends `child` after the last child. An empty inode takes the depth
    /// one above the child's.
    pub fn push(&mut self, child: Arc<Node<N, L>>)
        requires
            old(self).wf(),
            child.wf(),
            old(self).children@.len() < N,
            old(self).children@.len() == 0 ==> child.depth() + 1 < usize::MAX,
            old(self).children@.len() == 0 || child.depth() == old(self).depth - 1,
            fits_leaves(old(self).leaves() + child.leaves()),
        ensures
            final(self).wf(),
            final(self).children@ == old(self).children@.push(child),
            final(self).depth == (if old(self).children@.len() == 0 {
                child.depth() + 1
            } else {
                old(self).depth as int
            }),
    {
        let len = self.children.len();
        self.insert(len, child);
        proof {
            assert(old(self).children@.insert(len as int, child) =~= old(self).children@.push(child));
        }
    }
}


/// Every node of the sequence is filled and, if it is an inode, holds at
/// least `N / 2` children.
pub open spec fn all_filled<const N: usize, L: Leaf>(s: Seq<Arc<Node<N, L>>>) -> bool {
    forall|j: int|
        0 <= j < s.len() ==> (#[trigger] s[j]).filled() && (s[j].spec_is_internal() ==> s[j].spec_len()
            >= N / 2)
}

impl<const N: usize, L: Leaf> Inode<N, L> {
    /// Removes the child at `child_idx` and returns it.
    #[verifier::rlimit(100)]
    pub fn remove(&mut self, child_idx: usize) -> (r: Arc<Node<N, L>>)
        requires
            old(self).wf(),
            child_idx < old(self).children@.len(),
        ensures
            final(self).wf(),
            r == old(self).children@[child_idx as int],
            final(self).children@ == old(self).children@.remove(child_idx as int),
            final(self).depth == old(self).depth,
    {
        let ghost s = self.children@;
        let ghost x = leaves_of(s.subrange(0, child_idx as int));
        let ghost y = leaves_of(s.subrange(child_idx as int + 1, s.len() as int));
        let child = self.children.remove(child_idx);
        proof {
            lemma_leaves_of_split(s, child_idx as int);
            child.lemma_wf();
            lemma_total_middle(x, child.leaves(), y);
            lemma_total_len(x + y);
            lemma_minus_plus(total(x + y), total(child.leaves()));
            assert(s.remove(child_idx as int) =~= s.subrange(0, child_idx as int) + s.subrange(
                child_idx as int + 1,
                s.len() as int,
            ));
            lemma_leaves_of_concat(s.subrange(0, child_idx as int), s.subrange(child_idx as int + 1, s.len() as int));
            lemma_fits_le(total(x + y), L::counters(self.summary));
            assert(x + child.leaves() + y =~= x + (child.leaves() + y));
        }
        self.leaf_count = self.leaf_count - child.leaf_count();
        L::sub_summary(&mut self.summary, child.summary());
        proof {
            assert forall|j: int| 0 <= j < self.children@.len() implies (#[trigger] self.children@[j]).wf()
                && self.children@[j].depth() == self.depth - 1 by {
                if j < child_idx {
                    assert(self.children@[j] == s[j]);
                } else {
                    assert(self.children@[j] == s[j + 1]);
                }
            }
        }
        child
    }

    /// Puts `new_child` in the place of the child at `child_idx`.
    #[verifier::rlimit(100)]
    pub fn swap(&mut self, child_idx: usize, new_child: Arc<Node<N, L>>)
        requires
            old(self).wf(),
            child_idx < old(self).children@.len(),
            new_child.wf(),
            new_child.depth() == old(self).depth - 1,
            fits_leaves(
                leaves_of(old(self).children@.subrange(0, child_idx as int)) + new_child.leaves()
                    + leaves_of(
                    old(self).children@.subrange(child_idx as int + 1, old(self).children@.len() as int),
                ),
            ),
        ensures
            final(self).wf(),
            final(self).children@ == old(self).children@.update(child_idx as int, new_child),
            final(self).depth == old(self).depth,
    {
        let ghost s = self.children@;
        let ghost x = leaves_of(s.subrange(0, child_idx as int));
        let ghost y = leaves_of(s.subrange(child_idx as int + 1, s.len() as int));
        proof {
            let c = s[child_idx as int];
            lemma_leaves_of_split(s, child_idx as int);
            c.lemma_wf();
            new_child.lemma_wf();
            lemma_total_middle(x, c.leaves(), y);
            lemma_total_len(x + y);
            lemma_minus_plus(total(x + y), total(c.leaves()));
            lemma_total_middle(x, new_child.leaves(), y);
            lemma_minus_plus(total(x + y), total(new_child.leaves()));
            let t = s.update(child_idx as int, new_child);
            lemma_leaves_of_split(t, child_idx as int);
            assert(t.subrange(0, child_idx as int) =~= s.subrange(0, child_idx as int));
            assert(t.subrange(child_idx as int + 1, t.len() as int) =~= s.subrange(
                child_idx as int + 1,
                s.len() as int,
            ));
            assert(x + c.leaves() + y =~= x + (c.leaves() + y));
        }
        self.leaf_count = self.leaf_count - self.children[child_idx].leaf_count();
        L::sub_summary(&mut self.summary, self.children[child_idx].summary());
        self.leaf_count = self.leaf_count + new_child.leaf_count();
        L::add_summary(&mut self.summary, new_child.summary());
        self.children.set(child_idx, new_child);
        proof {
            assert forall|j: int| 0 <= j < self.children@.len() implies (#[trigger] self.children@[j]).wf()
                && self.children@[j].depth() == self.depth - 1 by {
                if j != child_idx {
                    assert(self.children@[j] == s[j]);
                }
            }
        }
    }

    /// Takes the children in `start..end` out of this inode and returns
    /// them in order; the children after them move left.
    pub fn drain(&mut self, start: usize, end: usize) -> (r: Vec<Arc<Node<N, L>>>)
        requires
            old(self).wf(),
            start <= end <= old(self).children@.len(),
        ensures
            final(self).wf(),
            r@ == old(self).children@.subrange(start as int, end as int),
            final(self).children@ == old(self).children@.subrange(0, start as int)
                + old(self).children@.subrange(end as int, old(self).children@.len() as int),
            final(self).depth == old(self).depth,
    {
        let ghost s = self.children@;
        let mut out: Vec<Arc<Node<N, L>>> = Vec::new();
        let mut k: usize = start;
        while k < end
            invariant
                start <= k <= end <= s.len(),
                self.wf(),
                self.depth == old(self).depth,
                out@ == s.subrange(start as int, k as int),
                self.children@ == s.subrange(0, start as int) + s.subrange(k as int, s.len() as int),
            decreases end - k,
        {
            let child = self.remove(start);
            proof {
                assert(child == s[k as int]);
            }
            out.push(child);
            k = k + 1;
            proof {
                assert(out@ =~= s.subrange(start as int, k as int));
                assert(self.children@ =~= s.subrange(0, start as int) + s.subrange(
                    k as int,
                    s.len() as int,
                ));
            }
        }
        out
    }

    /// An inode whose children are `children`, in order.
    #[verifier::rlimit(100)]
    pub fn from_children(children: Vec<Arc<Node<N, L>>>) -> (r: Self)
        requires
            1 <= children@.len() <= N,
            all_wf_at(children@, children@[0].depth()),
            children@[0].depth() + 1 < usize::MAX,
            fits_leaves(leaves_of(children@)),
        ensures
            r.wf(),
            r.children@ == children@,
            r.depth == children@[0].depth() + 1,
    {
        let ghost s = children@;
        let ghost d = s[0].depth();
        let mut rest = children;
        let mut inode = Self::empty();
        while rest.len() > 0
            invariant
                inode.wf(),
                rest@.len() <= s.len(),
                rest@ == s.subrange(0, rest@.len() as int),
                inode.children@ == s.subrange(rest@.len() as int, s.len() as int),
                inode.children@.len() > 0 ==> inode.depth == d + 1,
                all_wf_at(s, d),
                d + 1 < usize::MAX,
                1 <= s.len() <= N,
                fits_leaves(leaves_of(s)),
            decreases rest@.len(),
        {
            let child = rest.pop().unwrap();
            let ghost n = rest@.len();
            proof {
                assert(child == s[n as int]);
                let a = s.subrange(0, n as int);
                let m = seq![child];
                let b = s.subrange(n as int + 1, s.len() as int);
                assert(s =~= a + m + b);
                lemma_leaves_of_concat(a + m, b);
                lemma_leaves_of_concat(a, m);
                lemma_leaves_of_single(child);
                lemma_fits_leaves_sub(leaves_of(a), child.leaves(), leaves_of(b));
                lemma_fits_leaves_comm(child.leaves(), leaves_of(b));
                assert(inode.children@ =~= b);
            }
            inode.insert(0, child);
            proof {
                assert(inode.children@ =~= s.subrange(n as int, s.len() as int));
            }
        }
        proof {
            assert(inode.children@ =~= s);
        }
        inode
    }
}


/// Every node of the sequence is an inode of `N / 2` to `N` children.
pub open spec fn all_sized<const N: usize, L: Leaf>(s: Seq<Arc<Node<N, L>>>) -> bool {
    forall|j: int|
        0 <= j < s.len() ==> (#[trigger] s[j]).spec_is_internal() && N / 2 <= s[j].spec_len() <= N
}

proof fn lemma_segment_step<const N: usize, L: Leaf>(
    s: Seq<Arc<Node<N, L>>>,
    d: int,
    consumed: int,
    take: int,
)
    requires
        0 <= consumed,
        1 <= take,
        consumed + take <= s.len(),
        all_wf_at(s, d),
        fits_leaves(leaves_of(s)),
    ensures
        ({
            let chunk = s.subrange(consumed, consumed + take);
            &&& fits_leaves(leaves_of(chunk))
            &&& all_wf_at(chunk, chunk[0].depth())
            &&& chunk[0].depth() == d
            &&& leaves_of(s.subrange(0, consumed + take)) == leaves_of(s.subrange(0, consumed))
                + leaves_of(chunk)
        }),
{
    let a = s.subrange(0, consumed);
    let chunk = s.subrange(consumed, consumed + take);
    let b = s.subrange(consumed + take, s.len() as int);
    assert(s =~= a + chunk + b);
    lemma_leaves_of_concat(a + chunk, b);
    lemma_leaves_of_concat(a, chunk);
    lemma_fits_leaves_sub(leaves_of(a), leaves_of(chunk), leaves_of(b));
    assert(chunk[0] == s[consumed]);
    assert forall|j: int| 0 <= j < chunk.len() implies (#[trigger] chunk[j]).wf()
        && chunk[j].depth() == chunk[0].depth() by {
        assert(chunk[j] == s[consumed + j]);
    }
    assert(s.subrange(0, consumed + take) =~= a + chunk);
}

/// How many of `r` remaining nodes the next inode takes: `max` where at
/// least `min` are left after that, else all but `min`; all of them where
/// no more than `max` remain.
pub open spec fn bucket(r: nat, min: nat, max: nat) -> nat {
    if r > max {
        if r - max >= min {
            max
        } else {
            (r - min) as nat
        }
    } else {
        r
    }
}

/// The sizes of the inodes that packing `r` nodes gives, in order.
pub open spec fn buckets(r: nat, min: nat, max: nat) -> Seq<nat>
    decreases r,
{
    if r == 0 || bucket(r, min, max) == 0 || bucket(r, min, max) > r {
        Seq::empty()
    } else {
        seq![bucket(r, min, max)] + buckets((r - bucket(r, min, max)) as nat, min, max)
    }
}

/// The children of a sequence of nodes, put end to end.
pub open spec fn grandchildren<const N: usize, L: Leaf>(s: Seq<Arc<Node<N, L>>>) -> Seq<Arc<Node<N, L>>>
    decreases s.len(),
{
    if s.len() == 0 {
        Seq::empty()
    } else {
        grandchildren(s.drop_last()) + s.last().children_of()
    }
}

/// `b` to the power `e`.
pub open spec fn power(b: nat, e: nat) -> nat
    decreases e,
{
    if e == 0 {
        1
    } else {
        b * power(b, (e - 1) as nat)
    }
}

/// Inodes of at least `N / 2` children each have at least `N / 2` times
/// as many children as there are inodes.
proof fn lemma_grandchildren_len<const N: usize, L: Leaf>(s: Seq<Arc<Node<N, L>>>)
    requires
        all_sized(s),
    ensures
        grandchildren(s).len() >= (N / 2) * s.len(),
    decreases s.len(),
{
    if s.len() > 0 {
        let t = s.drop_last();
        assert forall|j: int| 0 <= j < t.len() implies (#[trigger] t[j]).spec_is_internal()
            && N / 2 <= t[j].spec_len() <= N by {
            assert(t[j] == s[j]);
        }
        lemma_grandchildren_len(t);
        let m = (N / 2) as int;
        let k = t.len() as int;
        assert(s.last() == s[s.len() - 1]);
        assert(s.last().children_of().len() == s.last().spec_len());
        assert(m * (k + 1) == m * k + m) by (nonlinear_arith);
    }
}

/// How many children each node of the sequence holds.
pub open spec fn sizes<const N: usize, L: Leaf>(s: Seq<Arc<Node<N, L>>>) -> Seq<nat> {
    s.map_values(|n: Arc<Node<N, L>>| n.spec_len() as nat)
}

/// Packs `nodes`, left to right, into inodes of `N / 2` to `N` children
/// each: while more than `N` remain the next inode takes `N` of them, or
/// fewer so that at least `N / 2` are left for the rest.
#[verifier::rlimit(100)]
pub fn segment<const N: usize, L: Leaf>(nodes: Vec<Arc<Node<N, L>>>) -> (r: Vec<Arc<Node<N, L>>>)
    requires
        N >= 2,
        nodes@.len() >= 1,
        nodes@.len() >= N / 2,
        all_wf_at(nodes@, nodes@[0].depth()),
        nodes@[0].depth() + 1 < usize::MAX,
        fits_leaves(leaves_of(nodes@)),
    ensures
        r@.len() >= 1,
        all_wf_at(r@, nodes@[0].depth() + 1),
        all_filled(nodes@) ==> all_filled(r@),
        all_sized(r@),
        leaves_of(r@) == leaves_of(nodes@),
        nodes@.len() >= 2 ==> r@.len() < nodes@.len(),
        nodes@.len() <= N ==> r@.len() == 1,
        nodes@.len() > N ==> r@.len() >= 2,
        grandchildren(r@) == nodes@,
        sizes(r@) == buckets(nodes@.len(), (N / 2) as nat, N as nat),
        (N / 2) * r@.len() <= nodes@.len(),
{
    let ghost s = nodes@;
    let ghost d = s[0].depth();
    let min = N / 2;
    let mut rest = nodes;
    let mut out: Vec<Arc<Node<N, L>>> = Vec::new();
    let ghost mut consumed: int = 0;
    proof {
        assert(out@ =~= Seq::<Arc<Node<N, L>>>::empty());
        assert(s.subrange(0, 0) =~= Seq::<Arc<Node<N, L>>>::empty());
        assert(sizes(out@) =~= Seq::<nat>::empty());
        assert(rest@ =~= s.subrange(0, s.len() as int));
        assert(Seq::<nat>::empty() + buckets(s.len(), min as nat, N as nat) =~= buckets(s.len(), min as nat, N as nat));
    }
    while rest.len() > 0
        invariant
            N >= 2,
            min == N / 2,
            0 <= consumed <= s.len(),
            rest@ == s.subrange(consumed, s.len() as int),
            rest@.len() == 0 || rest@.len() >= min,
            all_wf_at(s, d),
            d + 1 < usize::MAX,
            fits_leaves(leaves_of(s)),
            all_wf_at(out@, d + 1),
            all_filled(s) ==> all_filled(out@),
            all_sized(out@),
            leaves_of(out@) == leaves_of(s.subrange(0, consumed)),
            out@.len() <= consumed,
            out@.len() > 0 && s.len() >= 2 ==> out@.len() < consumed,
            s.len() <= N && out@.len() > 0 ==> out@.len() == 1 && consumed == s.len(),
            consumed == 0 <==> out@.len() == 0,
            s.len() > N && out@.len() == 1 ==> consumed < s.len(),
            grandchildren(out@) == s.subrange(0, consumed),
            sizes(out@) + buckets(rest@.len(), min as nat, N as nat) == buckets(s.len(), min as nat, N as nat),
        decreases rest@.len(),
    {
        let remaining = rest.len();
        let take = if remaining > N {
            if remaining - N >= min {
                N
            } else {
                remaining - min
            }
        } else {
            remaining
        };
        let tail = rest.split_off(take);
        let ghost chunk = rest@;
        proof {
            lemma_segment_step(s, d, consumed, take as int);
            assert(chunk =~= s.subrange(consumed, consumed + take));
        }
        let inode = Inode::from_children(rest);
        let node = Node::Internal(inode);
        proof {
            if all_filled(s) {
                assert forall|j: int| 0 <= j < inode.children@.len() implies (
                #[trigger] inode.children@[j]).filled() && (inode.children@[j].spec_is_internal()
                    ==> inode.children@[j].spec_len() >= N / 2) by {
                    assert(inode.children@[j] == s[consumed + j]);
                }
                assert(node.filled());
            }
            assert(node.wf());
        }
        let ghost old_out = out@;
        out.push(Arc::new(node));
        proof {
            assert(out@.drop_last() =~= old_out);
            assert(out@.last() == node);
            assert(leaves_of(out@) == leaves_of(old_out) + node.leaves());
            let bs = buckets(remaining as nat, min as nat, N as nat);
            assert(bucket(remaining as nat, min as nat, N as nat) == take);
            assert(bs == seq![take as nat] + buckets((remaining - take) as nat, min as nat, N as nat));
            assert(sizes(out@) =~= sizes(old_out).push(take as nat));
            assert(sizes(out@) + buckets((remaining - take) as nat, min as nat, N as nat)
                =~= sizes(old_out) + bs);
            assert(grandchildren(out@) == grandchildren(old_out) + chunk);
            assert(s.subrange(0, consumed + take) =~= s.subrange(0, consumed) + chunk);
            consumed = consumed + take;
            assert(tail@ =~= s.subrange(consumed, s.len() as int));
            assert forall|j: int| 0 <= j < out@.len() implies (#[trigger] out@[j]).wf()
                && out@[j].depth() == d + 1 && out@[j].spec_is_internal() && N / 2 <= out@[j].spec_len() <= N by {
                if j < old_out.len() {
                    assert(out@[j] == old_out[j]);
                }
            }
            if all_filled(s) {
                assert forall|j: int| 0 <= j < out@.len() implies (#[trigger] out@[j]).filled()
                    && (out@[j].spec_is_internal() ==> out@[j].spec_len() >= N / 2) by {
                    if j < old_out.len() {
                        assert(out@[j] == old_out[j]);
                    }
                }
            }
        }
        rest = tail;
    }
    proof {
        assert(s.subrange(0, consumed) =~= s);
        lemma_grandchildren_len(out@);
    }
    out
}

impl<const N: usize, L: Leaf> Inode<N, L> {
    /// An inode above `nodes`, with as many levels between as it takes for
    /// no inode to hold more than `N` children.
    pub fn from_nodes(nodes: Vec<Arc<Node<N, L>>>) -> (r: Self)
        requires
            N >= 2,
            nodes@.len() >= 2,
            all_wf_at(nodes@, nodes@[0].depth()),
            all_filled(nodes@),
            nodes@[0].depth() + nodes@.len() < usize::MAX,
            fits_leaves(leaves_of(nodes@)),
        ensures
            r.wf(),
            r.children@.len() >= 2,
            Node::Internal(r).filled(),
            r.leaves() == leaves_of(nodes@),
            r.depth > nodes@[0].depth(),
            nodes@.len() <= N ==> r.children@ == nodes@ && r.depth == nodes@[0].depth() + 1,
            2 * power((N / 2) as nat, (r.depth - nodes@[0].depth() - 1) as nat) <= nodes@.len(),
    {
        let ghost s = nodes@;
        let ghost d0 = s[0].depth();
        let mut cur = nodes;
        proof {
            assert(power((N / 2) as nat, 0) == 1);
            assert((cur@[0].depth() - d0) as nat == 0);
        }
        while cur.len() > N
            invariant
                s.len() <= N ==> cur@ == s,
                N >= 2,
                cur@.len() >= 2,
                all_wf_at(cur@, cur@[0].depth()),
                all_filled(cur@),
                cur@[0].depth() + cur@.len() <= d0 + s.len(),
                d0 + s.len() < usize::MAX,
                cur@[0].depth() >= d0,
                leaves_of(cur@) == leaves_of(s),
                fits_leaves(leaves_of(s)),
                power((N / 2) as nat, (cur@[0].depth() - d0) as nat) * cur@.len() <= s.len(),
            decreases cur@.len(),
        {
            let ghost k = (cur@[0].depth() - d0) as nat;
            let ghost len = cur@.len();
            let next = segment(cur);
            proof {
                assert(next@[0].depth() == cur@[0].depth() + 1);
                let p = power((N / 2) as nat, k);
                let m = (N / 2) as nat;
                let l2 = next@.len();
                assert(power(m, k + 1) == m * p);
                assert(m * p * l2 <= p * len) by (nonlinear_arith)
                    requires
                        m * l2 <= len,
                ;
                assert(((next@[0].depth() - d0) as nat) == k + 1);
            }
            cur = next;
        }
        proof {
            let k = (cur@[0].depth() - d0) as nat;
            let p = power((N / 2) as nat, k);
            assert(2 * p <= p * cur@.len()) by (nonlinear_arith)
                requires
                    cur@.len() >= 2,
            ;
        }
        let ghost c = cur@;
        let r = Self::from_children(cur);
        proof {
            assert forall|j: int| 0 <= j < r.children@.len() implies (#[trigger] r.children@[j]).filled()
                && (r.children@[j].spec_is_internal() ==> r.children@[j].spec_len() >= N / 2) by {
                assert(r.children@[j] == c[j]);
            }
        }
        r
    }
}


impl<const N: usize, L: Leaf> Node<N, L> {
    /// The summary of this subtree, added up from the summaries of its
    /// leaves rather than read from the inodes' cached ones.
    pub fn summarize(&self) -> (r: L::Summary)
        requires
            self.wf(),
        ensures
            L::counters(r) == total(self.leaves()),
        decreases self.depth(),
    {
        proof {
            self.lemma_wf();
        }
        match self {
            Node::Leaf(l) => L::copy_summary(&l.summary),
            Node::Internal(i) => {
                let ghost cs = i.children@;
                let mut acc = L::empty_summary();
                let mut j: usize = 0;
                proof {
                    assert(cs.subrange(0, 0) =~= Seq::<Arc<Node<N, L>>>::empty());
                    assert(leaves_of(Seq::<Arc<Node<N, L>>>::empty()) =~= Seq::<L>::empty());
                }
                while j < i.children.len()
                    invariant
                        self.wf(),
                        *self == Node::Internal(*i),
                        cs == i.children@,
                        j <= cs.len(),
                        L::counters(acc) == total(leaves_of(cs.subrange(0, j as int))),
                        fits(total(leaves_of(cs))),
                    decreases cs.len() - j,
                {
                    let child: &Node<N, L> = &*i.children[j];
                    let part = child.summarize();
                    proof {
                        let pre = leaves_of(cs.subrange(0, j as int));
                        let next = cs.subrange(0, j as int + 1);
                        assert(next.drop_last() =~= cs.subrange(0, j as int));
                        assert(next.last() == cs[j as int]);
                        let rest = cs.subrange(j as int + 1, cs.len() as int);
                        assert(cs =~= next + rest);
                        lemma_leaves_of_concat(next, rest);
                        lemma_total_concat(pre, child.leaves());
                        lemma_total_concat(leaves_of(next), leaves_of(rest));
                        lemma_total_len(leaves_of(next));
                        lemma_total_len(leaves_of(rest));
                        lemma_total_len(pre);
                        lemma_minus_plus(total(leaves_of(next)), total(leaves_of(rest)));
                        lemma_fits_le(total(leaves_of(next)), total(leaves_of(cs)));
                        child.lemma_wf();
                    }
                    L::add_summary(&mut acc, &part);
                    j = j + 1;
                }
                proof {
                    assert(cs.subrange(0, j as int) =~= cs);
                }
                acc
            },
        }
    }
}

} // verus!
