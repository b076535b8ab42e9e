use std::sync::Arc;
use vstd::prelude::*;

use crate::node::{leaves_of, lemma_leaves_of_concat, Lnode, Node};
use crate::summary::{
    fits, le, lemma_fits_le, lemma_minus_plus, lemma_total_concat, lemma_total_len,
    lemma_total_single, minus, plus, total, Leaf, Metric, Summarize,
};

verus! {

broadcast use vstd::std_specs::vec::group_vec_axioms;

/// The measure in counter `k` of the first `j` values of `s`.
pub open spec fn prefix<L: Summarize>(s: Seq<L>, j: int, k: int) -> nat {
    total(s.subrange(0, j))[k]
}

/// The value at `j` spans the position `target`: where `strict`, the
/// position right after `target` (its units `target..target + 1`), else
/// the position right before it.
pub open spec fn spans<L: Summarize>(s: Seq<L>, j: int, k: int, target: nat, strict: bool) -> bool {
    if strict {
        prefix(s, j, k) <= target < prefix(s, j + 1, k)
    } else {
        prefix(s, j, k) < target <= prefix(s, j + 1, k)
    }
}

pub proof fn lemma_prefix_step<L: Summarize>(s: Seq<L>, j: int)
    requires
        0 <= j < s.len(),
    ensures
        total(s.subrange(0, j + 1)) == plus(total(s.subrange(0, j)), s[j].measures()),
{
    assert(s.subrange(0, j + 1).drop_last() =~= s.subrange(0, j));
}

/// Totals of a sequence split in two add up.
pub proof fn lemma_total_split<L: Summarize>(s: Seq<L>, j: int)
    requires
        0 <= j <= s.len(),
    ensures
        total(s) == plus(total(s.subrange(0, j)), total(s.subrange(j, s.len() as int))),
        le(total(s.subrange(0, j)), total(s)),
{
    assert(s =~= s.subrange(0, j) + s.subrange(j, s.len() as int));
    lemma_total_concat(s.subrange(0, j), s.subrange(j, s.len() as int));
    lemma_total_len(s.subrange(0, j));
    lemma_total_len(s.subrange(j, s.len() as int));
    lemma_minus_plus(total(s.subrange(0, j)), total(s.subrange(j, s.len() as int)));
}

/// Where in `node`'s leaves lies the position `target` of the metric `M`
/// (see `spans`): the index of that leaf and the summary of the leaves
/// before it.
#[verifier::rlimit(100)]
pub fn locate<'a, const N: usize, L: Leaf, M: Metric<L>>(
    node: &'a Node<N, L>,
    target: usize,
    strict: bool,
) -> (r: (usize, L::Summary, &'a Lnode<L>))
    requires
        node.wf(),
        M::index() < L::arity(),
        if strict {
            target < total(node.leaves())[M::index() as int]
        } else {
            0 < target <= total(node.leaves())[M::index() as int]
        },
    ensures
        r.0 < node.leaves().len(),
        L::counters(r.1) == total(node.leaves().subrange(0, r.0 as int)),
        r.2.value == node.leaves()[r.0 as int],
        r.2.wf(),
        spans(node.leaves(), r.0 as int, M::index() as int, target as nat, strict),
    decreases node.depth(),
{
    let ghost k = M::index() as int;
    proof {
        node.lemma_wf();
    }
    match node {
        Node::Leaf(l) => {
            let before = L::empty_summary();
            proof {
                let s = node.leaves();
                assert(s.subrange(0, 0) =~= Seq::<L>::empty());
                assert(s.subrange(0, 1) =~= s);
            }
            (0, before, l)
        },
        Node::Internal(i) => {
            let ghost cs = i.children@;
            let ghost all = node.leaves();
            let mut acc = L::empty_summary();
            let mut acc_leaves: usize = 0;
            let mut j: usize = 0;
            proof {
                assert(cs.subrange(0, 0) =~= Seq::<Arc<Node<N, L>>>::empty());
                assert(leaves_of(Seq::<Arc<Node<N, L>>>::empty()) =~= Seq::<L>::empty());
                assert(all.subrange(0, 0) =~= Seq::<L>::empty());
            }
            loop
                invariant
                    node.wf(),
                    *node == Node::Internal(*i),
                    cs == i.children@,
                    all == leaves_of(cs),
                    k == M::index(),
                    k < L::arity(),
                    j < cs.len(),
                    L::counters(acc) == total(leaves_of(cs.subrange(0, j as int))),
                    acc_leaves == leaves_of(cs.subrange(0, j as int)).len(),
                    leaves_of(cs.subrange(0, j as int)) == all.subrange(0, acc_leaves as int),
                    acc_leaves <= all.len(),
                    fits(total(all)),
                    total(all).len() == L::arity(),
                    if strict {
                        total(leaves_of(cs.subrange(0, j as int)))[k] <= target < total(all)[k]
                    } else {
                        total(leaves_of(cs.subrange(0, j as int)))[k] < target <= total(all)[k]
                    },
                decreases cs.len() - j,
            {
                let child: &'a Node<N, L> = &*i.children[j];
                let ghost pre = leaves_of(cs.subrange(0, j as int));
                let ghost cl = child.leaves();
                proof {
                    child.lemma_wf();
                    let next = cs.subrange(0, j as int + 1);
                    assert(next.drop_last() =~= cs.subrange(0, j as int));
                    assert(next.last() == cs[j as int]);
                    assert(leaves_of(next) == pre + cl);
                    assert(cs =~= next + cs.subrange(j as int + 1, cs.len() as int));
                    lemma_leaves_of_concat(next, cs.subrange(j as int + 1, cs.len() as int));
                    lemma_total_split(all, (pre + cl).len() as int);
                    assert(all.subrange(0, (pre + cl).len() as int) =~= pre + cl);
                    lemma_total_concat(pre, cl);
                    lemma_total_len(pre);
                    lemma_fits_le(total(pre + cl), total(all));
                    lemma_total_len(cl);
                    lemma_minus_plus(total(pre), total(cl));
                    lemma_fits_le(total(pre), total(pre + cl));
                    assert(total(pre + cl)[k] == total(pre)[k] + total(cl)[k]);
                }
                let acc_m = M::measure(&acc).to_usize();
                let child_m = M::measure(child.summary()).to_usize();
                let found = if strict {
                    target < acc_m + child_m
                } else {
                    target <= acc_m + child_m
                };
                proof {
                    if j + 1 == cs.len() {
                        assert(cs.subrange(0, j as int + 1) =~= cs);
                    }
                }
                if found || j + 1 == i.children.len() {
                    let (idx, before, leaf) = locate::<N, L, M>(child, target - acc_m, strict);
                    let mut sum = acc;
                    proof {
                        let cp = cl.subrange(0, idx as int);
                        lemma_total_split(cl, idx as int);
                        lemma_total_len(pre);
                        lemma_total_len(cp);
                        lemma_total_concat(pre, cp);
                        lemma_fits_le(total(pre + cl), total(all));
                        lemma_total_concat(pre, cl);
                        lemma_total_len(cl);
                        lemma_total_len(cl.subrange(idx as int, cl.len() as int));
                        crate::summary::lemma_plus_assoc(total(pre), total(cp), total(cl.subrange(idx as int, cl.len() as int)));
                        lemma_minus_plus(total(pre + cp), total(cl.subrange(idx as int, cl.len() as int)));
                        lemma_fits_le(total(pre + cp), total(pre + cl));
                    }
                    L::add_summary(&mut sum, &before);
                    let at = acc_leaves + idx;
                    proof {
                        let cp = cl.subrange(0, idx as int);
                        let cp1 = cl.subrange(0, idx as int + 1);
                        assert(all.subrange(0, at as int) =~= pre + cp);
                        assert(all.subrange(0, at as int + 1) =~= pre + cp1);
                        lemma_total_concat(pre, cp1);
                        lemma_total_len(cp1);
                    }
                    proof {
                        assert(all[at as int] == cl[idx as int]) by {
                            assert(all.subrange(0, at as int + 1)[at as int] == all[at as int]);
                        }
                    }
                    return (at, sum, leaf);
                }
                proof {
                    lemma_total_len(cl);
                }
                L::add_summary(&mut acc, child.summary());
                acc_leaves = acc_leaves + child.leaf_count();
                j = j + 1;
                proof {
                    assert(leaves_of(cs.subrange(0, j as int)) == pre + cl);
                    assert(all.subrange(0, acc_leaves as int) =~= pre + cl);
                }
            }
        },
    }
}


/// The leaves that hold the two ends of the range `a..b` of the metric
/// `M` can be cut there.
pub open spec fn edges_cuttable<L: Leaf, M: Metric<L>>(s: Seq<L>, a: nat, b: nat) -> bool {
    let k = M::index() as int;
    forall|i: int, j: int|
        0 <= i <= j < s.len() && #[trigger] spans(s, i, k, a, true) && #[trigger] spans(
            s,
            j,
            k,
            b,
            false,
        ) ==> if i == j {
            M::cuttable(s[i], (a - prefix(s, i, k)) as nat, (b - prefix(s, i, k)) as nat)
        } else {
            M::cuttable(s[i], (a - prefix(s, i, k)) as nat, s[i].measures()[k])
                && M::cuttable(s[j], 0, (b - prefix(s, j, k)) as nat)
        }
}

/// A view of a contiguous range of a tree's content: the part of the
/// first leaf it touches, the whole leaves in between, and the part of the
/// last leaf it touches.
pub struct TreeSlice<'a, const N: usize, L: Leaf> {
    pub root: &'a Node<N, L>,
    pub first: Option<L>,
    pub last: Option<L>,
    pub start_leaf: usize,
    pub end_leaf: usize,
    pub summary: L::Summary,
    pub leaf_count: usize,
    /// Where the slice starts and ends, in the metric it was cut by.
    pub start_pos: usize,
    pub end_pos: usize,
    /// Which counter that metric reads.
    pub metric: Ghost<nat>,
}

impl<'a, const N: usize, L: Leaf> View for TreeSlice<'a, N, L> {
    type V = Seq<L>;

    /// The leaves of the slice, left to right.
    open spec fn view(&self) -> Seq<L> {
        match self.first {
            None => Seq::empty(),
            Some(f) => match self.last {
                None => seq![f],
                Some(l) => seq![f] + self.root.leaves().subrange(
                    self.start_leaf + 1,
                    self.end_leaf as int,
                ) + seq![l],
            },
        }
    }
}

impl<'a, const N: usize, L: Leaf> TreeSlice<'a, N, L> {
    /// This slice holds the content of the leaves `s`, which are those of
    /// its root, between the positions `start` and `end` of the metric
    /// `M`: where the range is empty, nothing; else the part after `start`
    /// of the leaf that holds the unit right after `start`, the leaves
    /// that follow, and the part before `end` of the leaf that holds the
    /// unit right before `end`.
    pub open spec fn is_slice_of<M: Metric<L>>(&self, s: Seq<L>, start: nat, end: nat) -> bool {
        let k = M::index() as int;
        let i = self.start_leaf as int;
        let j = self.end_leaf as int;
        if start == end {
            self@.len() == 0
        } else {
            &&& self.root.leaves() == s
            &&& self.first is Some
            &&& spans(s, i, k, start, true)
            &&& spans(s, j, k, end, false)
            &&& if i == j {
                M::piece(s[i], self.first->0, (start - prefix(s, i, k)) as nat, (end - prefix(s, i, k)) as nat)
            } else {
                M::piece(s[i], self.first->0, (start - prefix(s, i, k)) as nat, s[i].measures()[k])
                    && M::piece(s[j], self.last->0, 0, (end - prefix(s, j, k)) as nat)
            }
        }
    }

    pub open spec fn wf(&self) -> bool {
        &&& self.root.wf()
        &&& L::counters(self.summary) == total(self@)
        &&& fits(total(self@))
        &&& self.leaf_count == self@.len()
        &&& self.first is Some ==> self.start_leaf <= self.end_leaf < self.root.leaves().len()
            && (self.last is None <==> self.start_leaf == self.end_leaf)
        &&& self.first is None ==> self.last is None
    }

    /// The slice with nothing in it, at the position `pos` of the metric
    /// `M`.
    pub fn empty<M: Metric<L>>(root: &'a Node<N, L>, pos: usize) -> (r: Self)
        requires
            root.wf(),
        ensures
            r.wf(),
            r@.len() == 0,
            r.root == root,
            r.start_pos == pos,
            r.end_pos == pos,
            r.metric@ == M::index(),
    {
        let r = TreeSlice {
            root,
            first: None,
            last: None,
            start_leaf: 0,
            end_leaf: 0,
            summary: L::empty_summary(),
            leaf_count: 0,
            start_pos: pos,
            end_pos: pos,
            metric: Ghost(M::index()),
        };
        proof {
            assert(r@ =~= Seq::<L>::empty());
            assert(total(Seq::<L>::empty()) == crate::summary::zeros(L::arity()));
        }
        r
    }

    /// The slice of `root` between the positions `start` and `end` of the
    /// metric `M`: its first leaf is the one that holds the unit right
    /// after `start`, its last the one that holds the unit right before
    /// `end`, and both are cut there.
    #[verifier::rlimit(100)]
    pub fn from_range_in_node<M: Metric<L>>(root: &'a Node<N, L>, start: usize, end: usize) -> (r: Self)
        requires
            root.wf(),
            M::index() < L::arity(),
            start < end <= total(root.leaves())[M::index() as int],
            edges_cuttable::<L, M>(root.leaves(), start as nat, end as nat),
        ensures
            r.wf(),
            r.root == root,
            r.is_slice_of::<M>(root.leaves(), start as nat, end as nat),
            r.start_pos == start,
            r.end_pos == end,
            r.metric@ == M::index(),
    {
        let ghost s = root.leaves();
        let ghost k = M::index() as int;
        let (i, before_i, leaf_i) = locate::<N, L, M>(root, start, true);
        let (j, before_j, leaf_j) = locate::<N, L, M>(root, end, false);
        proof {
            root.lemma_wf();
            lemma_total_split(s, i as int);
            lemma_total_split(s, j as int);
            lemma_fits_le(L::counters(before_i), total(s));
            lemma_fits_le(L::counters(before_j), total(s));
            if j < i {
                lemma_prefix_mono(s, j as int + 1, i as int, k);
            }
            leaf_i.value.lemma_arity();
            leaf_j.value.lemma_arity();
            lemma_prefix_step(s, i as int);
            lemma_prefix_step(s, j as int);
        }
        let p_i = M::measure(&before_i).to_usize();
        let p_j = M::measure(&before_j).to_usize();
        if i == j {
            let piece = M::slice_leaf(&leaf_i.value, start - p_i, end - p_i);
            proof {
                piece.lemma_arity();
                lemma_total_single(piece);
                lemma_fits_le(piece.measures(), leaf_i.value.measures());
            }
            let summary = piece.summarize();
            let r = TreeSlice {
                root,
                first: Some(piece),
                last: None,
                start_leaf: i,
                end_leaf: j,
                summary,
                leaf_count: 1,
                start_pos: start,
                end_pos: end,
                metric: Ghost(M::index()),
            };
            return r;
        }
        let m_i = M::measure(&leaf_i.summary).to_usize();
        let first = M::slice_leaf(&leaf_i.value, start - p_i, m_i);
        let last = M::slice_leaf(&leaf_j.value, 0, end - p_j);
        let ghost mid = s.subrange(i + 1, j as int);
        proof {
            lemma_middle_total(s, i as int, j as int);
            first.lemma_arity();
            last.lemma_arity();
            lemma_total_len(mid);
        }
        let mut middle = L::copy_summary(&before_j);
        L::sub_summary(&mut middle, &before_i);
        L::sub_summary(&mut middle, &leaf_i.summary);
        let mut summary = first.summarize();
        proof {
            lemma_total_single(first);
            lemma_total_single(last);
            lemma_view_total(first, mid, last);
            crate::summary::lemma_le_plus(first.measures(), total(mid), leaf_i.value.measures(), total(mid));
            crate::summary::lemma_le_plus(
                plus(first.measures(), total(mid)),
                last.measures(),
                plus(leaf_i.value.measures(), total(mid)),
                leaf_j.value.measures(),
            );
            crate::summary::lemma_le_trans(
                plus(plus(first.measures(), total(mid)), last.measures()),
                plus(plus(leaf_i.value.measures(), total(mid)), leaf_j.value.measures()),
                total(s),
            );
            lemma_fits_le(
                plus(plus(first.measures(), total(mid)), last.measures()),
                total(s),
            );
            lemma_fits_le(plus(first.measures(), total(mid)), plus(plus(first.measures(), total(mid)), last.measures()));
        }
        L::add_summary(&mut summary, &middle);
        let last_summary = last.summarize();
        L::add_summary(&mut summary, &last_summary);
        let r = TreeSlice {
            root,
            first: Some(first),
            last: Some(last),
            start_leaf: i,
            end_leaf: j,
            summary,
            leaf_count: j - i + 1,
            start_pos: start,
            end_pos: end,
            metric: Ghost(M::index()),
        };
        proof {
            assert(r@ == seq![first] + mid + seq![last]);
        }
        r
    }

    /// The slice of this slice between the positions `range.start` and
    /// `range.end` of the metric `M`, counted from the slice's start: the
    /// slice of the tree between `start_pos + range.start` and
    /// `start_pos + range.end`.
    pub fn slice<M: Metric<L>>(&self, range: std::ops::Range<M>) -> (r: TreeSlice<'a, N, L>)
        requires
            self.wf(),
            self.metric@ == M::index(),
            self.start_pos <= self.end_pos <= total(self.root.leaves())[M::index() as int],
            range.start.value() <= range.end.value() <= self.end_pos - self.start_pos,
            edges_cuttable::<L, M>(
                self.root.leaves(),
                (self.start_pos + range.start.value()) as nat,
                (self.start_pos + range.end.value()) as nat,
            ),
        ensures
            r.wf(),
            r.root == self.root,
            r.is_slice_of::<M>(
                self.root.leaves(),
                (self.start_pos + range.start.value()) as nat,
                (self.start_pos + range.end.value()) as nat,
            ),
            r.start_pos == self.start_pos + range.start.value(),
            r.end_pos == self.start_pos + range.end.value(),
    {
        proof {
            M::lemma_index();
        }
        let start = self.start_pos + range.start.to_usize();
        let end = self.start_pos + range.end.to_usize();
        if start == end {
            TreeSlice::empty::<M>(self.root, start)
        } else {
            TreeSlice::from_range_in_node::<M>(self.root, start, end)
        }
    }

    /// The summary of the slice's content.
    pub fn summary(&self) -> (r: &L::Summary)
        requires
            self.wf(),
        ensures
            L::counters(*r) == total(self@),
    {
        &self.summary
    }

    /// The leaves of the slice, left to right.
    pub fn leaves(&self) -> (r: Vec<&L>)
        requires
            self.wf(),
        ensures
            crate::tree::derefs(r@) == self@,
    {
        let mut out: Vec<&L> = Vec::new();
        match &self.first {
            None => {
                proof {
                    assert(crate::tree::derefs(out@) =~= self@);
                }
                out
            },
            Some(f) => {
                out.push(f);
                match &self.last {
                    None => {
                        proof {
                            assert(crate::tree::derefs(out@) =~= self@);
                        }
                        out
                    },
                    Some(l) => {
                        crate::tree::collect_range(
                            self.root,
                            self.start_leaf + 1,
                            self.end_leaf,
                            &mut out,
                        );
                        proof {
                            crate::tree::lemma_derefs_push(out@, l);
                        }
                        out.push(l);
                        proof {
                            assert(crate::tree::derefs(out@) =~= self@);
                        }
                        out
                    },
                }
            },
        }
    }
}

proof fn lemma_view_total<L: Summarize>(f: L, mid: Seq<L>, l: L)
    ensures
        total(seq![f] + mid + seq![l]) == plus(plus(f.measures(), total(mid)), l.measures()),
{
    lemma_total_concat(seq![f] + mid, seq![l]);
    lemma_total_concat(seq![f], mid);
    lemma_total_single(f);
    lemma_total_single(l);
}

pub proof fn lemma_prefix_mono<L: Summarize>(s: Seq<L>, a: int, b: int, k: int)
    requires
        0 <= a <= b <= s.len(),
        0 <= k < L::arity(),
    ensures
        prefix(s, a, k) <= prefix(s, b, k),
{
    let t = s.subrange(0, b);
    lemma_total_split(t, a);
    assert(t.subrange(0, a) =~= s.subrange(0, a));
    lemma_total_len(t);
}

/// The leaves strictly between `i` and `j` total what lies before `j`
/// less what lies before `i` and the leaf at `i`.
proof fn lemma_middle_total<L: Summarize>(s: Seq<L>, i: int, j: int)
    requires
        0 <= i < j < s.len(),
    ensures
        total(s.subrange(0, j)) == plus(
            plus(total(s.subrange(0, i)), s[i].measures()),
            total(s.subrange(i + 1, j)),
        ),
        le(total(s.subrange(0, i)), total(s.subrange(0, j))),
        minus(minus(total(s.subrange(0, j)), total(s.subrange(0, i))), s[i].measures()) == total(
            s.subrange(i + 1, j),
        ),
        le(s[i].measures(), minus(total(s.subrange(0, j)), total(s.subrange(0, i)))),
        le(plus(s[i].measures(), total(s.subrange(i + 1, j))), total(s)),
        le(plus(plus(s[i].measures(), total(s.subrange(i + 1, j))), s[j].measures()), total(s)),
{
    let t = s.subrange(0, j);
    lemma_total_split(t, i + 1);
    assert(t.subrange(0, i + 1) =~= s.subrange(0, i + 1));
    assert(t.subrange(i + 1, t.len() as int) =~= s.subrange(i + 1, j));
    lemma_prefix_step(s, i);
    lemma_total_len(s.subrange(0, i));
    lemma_total_len(s.subrange(i + 1, j));
    s[i].lemma_arity();
    crate::summary::lemma_plus_assoc(total(s.subrange(0, i)), s[i].measures(), total(s.subrange(i + 1, j)));
    lemma_minus_plus(total(s.subrange(0, i)), plus(s[i].measures(), total(s.subrange(i + 1, j))));
    lemma_minus_plus(s[i].measures(), total(s.subrange(i + 1, j)));
    lemma_total_split(s, j);
    lemma_total_len(t);
    assert(le(plus(s[i].measures(), total(s.subrange(i + 1, j))), total(t)));
    assert(le(total(t), total(s)));
    crate::summary::lemma_le_trans(plus(s[i].measures(), total(s.subrange(i + 1, j))), total(t), total(s));
    s[j].lemma_arity();
    crate::summary::lemma_le_plus(plus(s[i].measures(), total(s.subrange(i + 1, j))), s[j].measures(), total(t), s[j].measures());
    lemma_prefix_step(s, j);
    lemma_total_split(s, j + 1);
    crate::summary::lemma_le_trans(
        plus(plus(s[i].measures(), total(s.subrange(i + 1, j))), s[j].measures()),
        total(s.subrange(0, j + 1)),
        total(s),
    );
}


/// At most one value of a sequence spans a given position.
pub proof fn lemma_spans_unique<L: Summarize>(s: Seq<L>, i: int, j: int, k: int, target: nat, strict: bool)
    requires
        0 <= i < s.len(),
        0 <= j < s.len(),
        0 <= k < L::arity(),
        spans(s, i, k, target, strict),
        spans(s, j, k, target, strict),
    ensures
        i == j,
{
    if i < j {
        lemma_prefix_mono(s, i + 1, j, k);
    } else if j < i {
        lemma_prefix_mono(s, j + 1, i, k);
    }
}

/// Two slices of the same leaves over the same range of a metric hold the
/// same leaves of the tree and have the same summary. Re-slicing a slice
/// gives the slice of the tree over the composed range, so slicing
/// `a..b`, then `c..d` of that, is slicing `(a + c)..(a + d)`.
pub proof fn lemma_slices_agree<'a, 'b, const N: usize, L: Leaf, M: Metric<L>>(
    x: TreeSlice<'a, N, L>,
    y: TreeSlice<'b, N, L>,
    s: Seq<L>,
    start: nat,
    end: nat,
)
    requires
        x.wf(),
        y.wf(),
        start <= end,
        x.is_slice_of::<M>(s, start, end),
        y.is_slice_of::<M>(s, start, end),
    ensures
        start < end ==> x.start_leaf == y.start_leaf && x.end_leaf == y.end_leaf,
        x@.len() == y@.len(),
        total(x@) == total(y@),
        L::counters(x.summary) == L::counters(y.summary),
{
    if start < end {
        let k = M::index() as int;
        M::lemma_index();
        lemma_spans_unique(s, x.start_leaf as int, y.start_leaf as int, k, start, true);
        lemma_spans_unique(s, x.end_leaf as int, y.end_leaf as int, k, end, false);
        let i = x.start_leaf as int;
        let j = x.end_leaf as int;
        let f = x.first->0;
        let g = y.first->0;
        if i == j {
            M::lemma_piece_measures(s[i], f, g, (start - prefix(s, i, k)) as nat, (end - prefix(s, i, k)) as nat);
            lemma_total_single(f);
            lemma_total_single(g);
        } else {
            M::lemma_piece_measures(s[i], f, g, (start - prefix(s, i, k)) as nat, s[i].measures()[k]);
            M::lemma_piece_measures(s[j], x.last->0, y.last->0, 0, (end - prefix(s, j, k)) as nat);
            let mid = s.subrange(i + 1, j);
            lemma_view_total(f, mid, x.last->0);
            lemma_view_total(g, mid, y.last->0);
            assert(x@ == seq![f] + mid + seq![x.last->0]);
            assert(y@ == seq![g] + mid + seq![y.last->0]);
        }
    } else {
        assert(x@ =~= y@);
    }
}

} // verus!
