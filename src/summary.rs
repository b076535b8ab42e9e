use vstd::prelude::*;

verus! {

/// The sum of two counter vectors, entry by entry.
pub open spec fn plus(a: Seq<nat>, b: Seq<nat>) -> Seq<nat> {
    Seq::new(a.len(), |i: int| a[i] + b[i])
}

/// The difference of two counter vectors, entry by entry.
pub open spec fn minus(a: Seq<nat>, b: Seq<nat>) -> Seq<nat> {
    Seq::new(a.len(), |i: int| (a[i] - b[i]) as nat)
}

/// A vector of `n` zero counters.
pub open spec fn zeros(n: nat) -> Seq<nat> {
    Seq::new(n, |i: int| 0nat)
}

/// Every counter is representable as a `usize`.
pub open spec fn fits(a: Seq<nat>) -> bool {
    forall|i: int| 0 <= i < a.len() ==> #[trigger] a[i] <= usize::MAX
}

/// Entry by entry, `a` is at most `b`.
pub open spec fn le(a: Seq<nat>, b: Seq<nat>) -> bool {
    a.len() == b.len() && forall|i: int| 0 <= i < a.len() ==> #[trigger] a[i] <= b[i]
}

/// A value with a summary. A summary is a fixed number of counters (bytes,
/// line breaks, ...) that add up entry by entry when values are put side
/// by side.
pub trait Summarize: Sized {
    type Summary;

    /// How many counters a summary holds.
    spec fn arity() -> nat;

    /// The counters of a summary.
    spec fn counters(s: Self::Summary) -> Seq<nat>;

    /// The counters of this value's summary.
    spec fn measures(&self) -> Seq<nat>;

    proof fn lemma_arity(&self)
        ensures
            self.measures().len() == Self::arity(),
    ;

    fn summarize(&self) -> (r: Self::Summary)
        ensures
            Self::counters(r) == self.measures(),
    ;

    fn empty_summary() -> (r: Self::Summary)
        ensures
            Self::counters(r) == zeros(Self::arity()),
    ;

    fn copy_summary(s: &Self::Summary) -> (r: Self::Summary)
        ensures
            Self::counters(r) == Self::counters(*s),
    ;

    fn add_summary(acc: &mut Self::Summary, other: &Self::Summary)
        requires
            Self::counters(*old(acc)).len() == Self::arity(),
            Self::counters(*other).len() == Self::arity(),
            fits(plus(Self::counters(*old(acc)), Self::counters(*other))),
        ensures
            Self::counters(*final(acc)) == plus(Self::counters(*old(acc)), Self::counters(*other)),
    ;

    fn sub_summary(acc: &mut Self::Summary, other: &Self::Summary)
        requires
            Self::counters(*old(acc)).len() == Self::arity(),
            le(Self::counters(*other), Self::counters(*old(acc))),
        ensures
            Self::counters(*final(acc)) == minus(Self::counters(*old(acc)), Self::counters(*other)),
    ;
}

/// A scalar read off a summary: one of its counters.
pub trait Metric<L: Summarize>: Sized {
    /// Which counter of the summary this metric reads.
    spec fn index() -> nat;

    /// The value as a natural number.
    spec fn value(&self) -> nat;

    proof fn lemma_index()
        ensures
            Self::index() < L::arity(),
    ;

    fn zero() -> (r: Self)
        ensures
            r.value() == 0,
    ;

    fn measure(s: &L::Summary) -> (r: Self)
        requires
            L::counters(*s).len() == L::arity(),
            fits(L::counters(*s)),
        ensures
            r.value() == L::counters(*s)[Self::index() as int],
    ;

    fn to_usize(&self) -> (r: usize)
        ensures
            r == self.value(),
    ;

    fn from_usize(n: usize) -> (r: Self)
        ensures
            r.value() == n,
    ;

    /// `part` is what `orig` holds between the positions `from` and `to`
    /// of this metric.
    spec fn piece(orig: L, part: L, from: nat, to: nat) -> bool;

    /// `orig` can be cut at the positions `from` and `to` of this metric.
    spec fn cuttable(orig: L, from: nat, to: nat) -> bool;

    /// What lies between two positions of a leaf is one thing: two parts
    /// cut at the same positions have the same summary.
    proof fn lemma_piece_measures(orig: L, p: L, q: L, from: nat, to: nat)
        requires
            Self::piece(orig, p, from, to),
            Self::piece(orig, q, from, to),
        ensures
            p.measures() == q.measures(),
    ;

    /// The part of `leaf` between the positions `from` and `to`.
    fn slice_leaf(leaf: &L, from: usize, to: usize) -> (r: L)
        requires
            from <= to <= leaf.measures()[Self::index() as int],
            fits(leaf.measures()),
            Self::cuttable(*leaf, from as nat, to as nat),
        ensures
            Self::piece(*leaf, r, from as nat, to as nat),
            le(r.measures(), leaf.measures()),
    ;
}

/// The summary of a plain count.
#[derive(Copy, Clone, Default, Debug, PartialEq, Eq)]
pub struct Count(pub usize);

impl Summarize for usize {
    type Summary = Count;

    open spec fn arity() -> nat {
        1
    }

    open spec fn counters(s: Count) -> Seq<nat> {
        seq![s.0 as nat]
    }

    open spec fn measures(&self) -> Seq<nat> {
        seq![*self as nat]
    }

    proof fn lemma_arity(&self) {
    }

    fn summarize(&self) -> (r: Count) {
        Count(*self)
    }

    fn empty_summary() -> (r: Count) {
        let r = Count(0);
        assert(Self::counters(r) =~= zeros(1));
        r
    }

    fn copy_summary(s: &Count) -> (r: Count) {
        Count(s.0)
    }

    fn add_summary(acc: &mut Count, other: &Count) {
        assert(plus(Self::counters(*acc), Self::counters(*other))[0] == acc.0 + other.0);
        acc.0 = acc.0 + other.0;
        assert(Self::counters(*acc) =~= plus(Self::counters(*old(acc)), Self::counters(*other)));
    }

    fn sub_summary(acc: &mut Count, other: &Count) {
        assert(Self::counters(*other)[0] <= Self::counters(*acc)[0]);
        acc.0 = acc.0 - other.0;
        assert(Self::counters(*acc) =~= minus(Self::counters(*old(acc)), Self::counters(*other)));
    }
}

impl Metric<usize> for usize {
    open spec fn index() -> nat {
        0
    }

    open spec fn value(&self) -> nat {
        *self as nat
    }

    proof fn lemma_index() {
    }

    fn zero() -> (r: usize) {
        0
    }

    fn measure(s: &Count) -> (r: usize) {
        s.0
    }

    fn to_usize(&self) -> (r: usize) {
        *self
    }

    fn from_usize(n: usize) -> (r: usize) {
        n
    }

    /// A count is not cut: any part of it is all of it.
    open spec fn piece(orig: usize, part: usize, from: nat, to: nat) -> bool {
        part == orig
    }

    open spec fn cuttable(orig: usize, from: nat, to: nat) -> bool {
        true
    }

    proof fn lemma_piece_measures(orig: usize, p: usize, q: usize, from: nat, to: nat) {
    }

    fn slice_leaf(leaf: &usize, from: usize, to: usize) -> (r: usize) {
        *leaf
    }
}


/// The counters of a sequence of values put side by side.
pub open spec fn total<L: Summarize>(s: Seq<L>) -> Seq<nat>
    decreases s.len(),
{
    if s.len() == 0 {
        zeros(L::arity())
    } else {
        plus(total(s.drop_last()), s.last().measures())
    }
}

pub proof fn lemma_total_len<L: Summarize>(s: Seq<L>)
    ensures
        total(s).len() == L::arity(),
    decreases s.len(),
{
    if s.len() > 0 {
        lemma_total_len(s.drop_last());
    }
}

pub proof fn lemma_total_concat<L: Summarize>(x: Seq<L>, y: Seq<L>)
    ensures
        total(x + y) == plus(total(x), total(y)),
    decreases y.len(),
{
    lemma_total_len(x);
    lemma_total_len(y);
    if y.len() == 0 {
        assert(x + y =~= x);
        assert(plus(total(x), total(y)) =~= total(x));
    } else {
        let yl = y.drop_last();
        assert((x + y).drop_last() =~= x + yl);
        assert((x + y).last() == y.last());
        lemma_total_concat(x, yl);
        lemma_total_len(yl);
        assert(total(x + y) =~= plus(total(x), total(y)));
    }
}

pub proof fn lemma_total_single<L: Summarize>(l: L)
    ensures
        total(seq![l]) == l.measures(),
{
    l.lemma_arity();
    assert(seq![l].drop_last() =~= Seq::<L>::empty());
    assert(total(Seq::<L>::empty()) == zeros(L::arity()));
    assert(plus(zeros(L::arity()), l.measures()) =~= l.measures());
}

pub proof fn lemma_minus_plus(a: Seq<nat>, b: Seq<nat>)
    requires
        a.len() == b.len(),
    ensures
        minus(plus(a, b), b) == a,
        le(b, plus(a, b)),
        le(a, plus(a, b)),
        fits(plus(a, b)) ==> fits(a) && fits(b),
{
    assert(minus(plus(a, b), b) =~= a);
    if fits(plus(a, b)) {
        assert forall|i: int| 0 <= i < b.len() implies #[trigger] b[i] <= usize::MAX by {
            assert(plus(a, b)[i] <= usize::MAX);
        }
        assert forall|i: int| 0 <= i < a.len() implies #[trigger] a[i] <= usize::MAX by {
            assert(plus(a, b)[i] <= usize::MAX);
        }
    }
}

pub proof fn lemma_plus_comm(a: Seq<nat>, b: Seq<nat>)
    requires
        a.len() == b.len(),
    ensures
        plus(a, b) == plus(b, a),
{
    assert(plus(a, b) =~= plus(b, a));
}

pub proof fn lemma_plus_assoc(a: Seq<nat>, b: Seq<nat>, c: Seq<nat>)
    requires
        a.len() == b.len(),
    ensures
        plus(plus(a, b), c) == plus(a, plus(b, c)),
{
    assert(plus(plus(a, b), c) =~= plus(a, plus(b, c)));
}

pub proof fn lemma_fits_le(a: Seq<nat>, b: Seq<nat>)
    requires
        le(a, b),
        fits(b),
    ensures
        fits(a),
{
    assert forall|i: int| 0 <= i < a.len() implies #[trigger] a[i] <= usize::MAX by {
        assert(b[i] <= usize::MAX);
    }
}


/// A value that can stand at a leaf of a tree.
pub trait Leaf: Summarize {
    /// The metric whose units are the finest positions inside a leaf.
    type BaseMetric: Metric<Self>;

    /// The leaf holds enough to stand beside other leaves without being
    /// merged into them.
    spec fn big_enough(&self) -> bool;

    fn is_big_enough(&self, summary: &Self::Summary) -> (r: bool)
        requires
            Self::counters(*summary) == self.measures(),
        ensures
            r == self.big_enough(),
    ;
}

impl Leaf for usize {
    type BaseMetric = usize;

    open spec fn big_enough(&self) -> bool {
        true
    }

    fn is_big_enough(&self, summary: &Count) -> (r: bool) {
        true
    }
}


/// Every counter of the sequence's total, and its length, fit in a `usize`.
pub open spec fn fits_leaves<L: Summarize>(s: Seq<L>) -> bool {
    fits(total(s)) && s.len() < usize::MAX
}

/// Dropping values from either end keeps the total representable.
pub proof fn lemma_fits_leaves_sub<L: Summarize>(x: Seq<L>, m: Seq<L>, y: Seq<L>)
    requires
        fits_leaves(x + m + y),
    ensures
        fits_leaves(m),
        fits_leaves(x + y),
        fits_leaves(x + m),
        fits_leaves(m + y),
{
    lemma_total_middle(x, m, y);
    lemma_total_len(x + y);
    lemma_total_len(m);
    lemma_minus_plus(total(x + y), total(m));
    lemma_total_concat(x, m);
    lemma_total_concat(x + m, y);
    lemma_total_len(x);
    lemma_total_len(y);
    lemma_total_len(x + m);
    lemma_minus_plus(total(x + m), total(y));
    assert(x + m + y =~= x + (m + y));
    lemma_total_concat(x, m + y);
    lemma_total_len(m + y);
    lemma_minus_plus(total(x), total(m + y));
}

/// Taking a run out of the middle of a sequence takes its total out of the
/// sequence's total.
pub proof fn lemma_total_middle<L: Summarize>(x: Seq<L>, m: Seq<L>, y: Seq<L>)
    ensures
        total(x + m + y) == plus(total(x + y), total(m)),
{
    lemma_total_concat(x, m);
    lemma_total_concat(x + m, y);
    lemma_total_concat(x, y);
    lemma_total_len(x);
    lemma_total_len(y);
    lemma_total_len(m);
    lemma_plus_assoc(total(x), total(m), total(y));
    lemma_plus_comm(total(m), total(y));
    lemma_plus_assoc(total(x), total(y), total(m));
}


pub proof fn lemma_fits_leaves_comm<L: Summarize>(x: Seq<L>, y: Seq<L>)
    requires
        fits_leaves(x + y),
    ensures
        fits_leaves(y + x),
{
    lemma_total_concat(x, y);
    lemma_total_concat(y, x);
    lemma_total_len(x);
    lemma_total_len(y);
    lemma_plus_comm(total(x), total(y));
}


/// The contents of a sequence of leaves put end to end.
pub open spec fn contents<L: BalancedLeaf>(s: Seq<L>) -> Seq<L::Item>
    decreases s.len(),
{
    if s.len() == 0 {
        Seq::empty()
    } else {
        contents(s.drop_last()) + s.last().content()
    }
}

pub proof fn lemma_contents_concat<L: BalancedLeaf>(x: Seq<L>, y: Seq<L>)
    ensures
        contents(x + y) == contents(x) + contents(y),
    decreases y.len(),
{
    if y.len() == 0 {
        assert(x + y =~= x);
        assert(contents(x) + contents(y) =~= contents(x));
    } else {
        assert((x + y).drop_last() =~= x + y.drop_last());
        assert((x + y).last() == y.last());
        lemma_contents_concat(x, y.drop_last());
        assert(contents(x + y) =~= contents(x) + contents(y));
    }
}

pub proof fn lemma_contents_single<L: BalancedLeaf>(l: L)
    ensures
        contents(seq![l]) == l.content(),
{
    assert(seq![l].drop_last() =~= Seq::<L>::empty());
    assert(contents(Seq::<L>::empty()) =~= Seq::<L::Item>::empty());
    assert(seq![l].last() == l);
    assert(contents(seq![l]) =~= l.content());
}

/// A leaf whose content can be moved between neighbours to keep each
/// leaf big enough.
pub trait BalancedLeaf: Leaf {
    type Item;

    /// What the leaf holds, as a sequence.
    spec fn content(&self) -> Seq<Self::Item>;

    /// The contents of the one or two leaves that balancing `left` with
    /// `right` gives.
    spec fn balanced_contents(left: Self, right: Self) -> (Seq<Self::Item>, Option<Seq<Self::Item>>);

    /// Redistributes the content of two neighbouring leaves: either one
    /// leaf holding both contents, or two leaves that hold them in order.
    /// Leaves that are both big enough come back unchanged; otherwise the
    /// short side is filled up from the other.
    fn balance_slices(
        left: &Self,
        left_summary: &Self::Summary,
        right: &Self,
        right_summary: &Self::Summary,
    ) -> (r: ((Self, Self::Summary), Option<(Self, Self::Summary)>))
        requires
            Self::counters(*left_summary) == left.measures(),
            Self::counters(*right_summary) == right.measures(),
            fits(plus(left.measures(), right.measures())),
        ensures
            Self::counters(r.0.1) == r.0.0.measures(),
            r.0.0.content() == Self::balanced_contents(*left, *right).0,
            match r.1 {
                Some(second) => Self::balanced_contents(*left, *right).1 == Some(second.0.content()),
                None => Self::balanced_contents(*left, *right).1 is None,
            },
            match r.1 {
                Some(second) => {
                    &&& Self::counters(second.1) == second.0.measures()
                    &&& r.0.0.content() + second.0.content() == left.content() + right.content()
                    &&& plus(r.0.0.measures(), second.0.measures()) == plus(
                        left.measures(),
                        right.measures(),
                    )
                    &&& left.big_enough() && right.big_enough() ==> r.0.0.content()
                        == left.content() && second.0.content() == right.content()
                    &&& !left.big_enough() ==> r.0.0.big_enough()
                    &&& left.big_enough() && !right.big_enough() ==> second.0.big_enough()
                    &&& left.big_enough() && right.big_enough() ==> r.0.0.big_enough()
                        && second.0.big_enough()
                },
                None => {
                    &&& r.0.0.content() == left.content() + right.content()
                    &&& r.0.0.measures() == plus(left.measures(), right.measures())
                    &&& left.big_enough() || right.big_enough() ==> r.0.0.big_enough()
                },
            },
            !left.big_enough() && !right.big_enough() ==> r.1 is None,
            r.1 matches Some(second) ==> r.0.0.big_enough() && second.0.big_enough(),
    ;
}


/// `t` has no more leaves than `s` and no counter above the one of `s`.
pub open spec fn within<L: Summarize>(t: Seq<L>, s: Seq<L>) -> bool {
    le(total(t), total(s)) && t.len() <= s.len()
}

/// `new` holds the content of `old`, with the same summary, in no more
/// leaves.
pub open spec fn rebalanced<L: BalancedLeaf>(new: Seq<L>, old: Seq<L>) -> bool {
    &&& contents(new) == contents(old)
    &&& total(new) == total(old)
    &&& new.len() <= old.len()
}

pub proof fn lemma_fits_within<L: Summarize>(t: Seq<L>, s: Seq<L>)
    requires
        fits_leaves(s),
        within(t, s),
    ensures
        fits_leaves(t),
{
    lemma_fits_le(total(t), total(s));
}

pub proof fn lemma_within_drop_middle<L: Summarize>(x: Seq<L>, m: Seq<L>, y: Seq<L>)
    ensures
        within(x + y, x + m + y),
{
    lemma_total_middle(x, m, y);
    lemma_total_len(x + y);
    lemma_total_len(m);
    lemma_minus_plus(total(x + y), total(m));
}

pub proof fn lemma_within_trans<L: Summarize>(a: Seq<L>, b: Seq<L>, c: Seq<L>)
    requires
        within(a, b),
        within(b, c),
    ensures
        within(a, c),
{
}

pub proof fn lemma_rebalanced_within<L: BalancedLeaf>(new: Seq<L>, old: Seq<L>)
    requires
        rebalanced(new, old),
    ensures
        within(new, old),
{
    lemma_total_len(new);
}

pub proof fn lemma_rebalanced_middle<L: BalancedLeaf>(x: Seq<L>, m2: Seq<L>, m: Seq<L>, y: Seq<L>)
    requires
        rebalanced(m2, m),
    ensures
        rebalanced(x + m2 + y, x + m + y),
{
    lemma_contents_concat(x, m2);
    lemma_contents_concat(x + m2, y);
    lemma_contents_concat(x, m);
    lemma_contents_concat(x + m, y);
    lemma_total_middle(x, m2, y);
    lemma_total_middle(x, m, y);
}

pub proof fn lemma_rebalanced_trans<L: BalancedLeaf>(a: Seq<L>, b: Seq<L>, c: Seq<L>)
    requires
        rebalanced(a, b),
        rebalanced(b, c),
    ensures
        rebalanced(a, c),
{
}

pub proof fn lemma_rebalanced_refl<L: BalancedLeaf>(a: Seq<L>)
    ensures
        rebalanced(a, a),
{
}


pub proof fn lemma_fits_move_last<L: Summarize>(x: Seq<L>, m: Seq<L>, y: Seq<L>)
    requires
        fits_leaves(x + m + y),
    ensures
        fits_leaves(x + y + m),
{
    lemma_total_middle(x, m, y);
    lemma_total_concat(x + y, m);
}


pub proof fn lemma_rebalanced_fits<L: BalancedLeaf>(x: Seq<L>, m2: Seq<L>, m: Seq<L>, y: Seq<L>)
    requires
        rebalanced(m2, m),
        fits_leaves(x + m + y),
    ensures
        fits_leaves(x + m2 + y),
        rebalanced(x + m2 + y, x + m + y),
{
    lemma_rebalanced_middle(x, m2, m, y);
    lemma_rebalanced_within(x + m2 + y, x + m + y);
    lemma_fits_within(x + m2 + y, x + m + y);
}


pub proof fn lemma_within_middle<L: Summarize>(x: Seq<L>, m2: Seq<L>, m: Seq<L>, y: Seq<L>)
    requires
        within(m2, m),
    ensures
        within(x + m2 + y, x + m + y),
{
    lemma_total_middle(x, m2, y);
    lemma_total_middle(x, m, y);
    lemma_total_len(x + y);
    lemma_total_len(m);
    lemma_total_len(m2);
    assert(le(plus(total(x + y), total(m2)), plus(total(x + y), total(m))));
}


pub proof fn lemma_le_plus(a: Seq<nat>, b: Seq<nat>, c: Seq<nat>, d: Seq<nat>)
    requires
        le(a, c),
        le(b, d),
        a.len() == b.len(),
    ensures
        le(plus(a, b), plus(c, d)),
{
}


pub proof fn lemma_le_trans(a: Seq<nat>, b: Seq<nat>, c: Seq<nat>)
    requires
        le(a, b),
        le(b, c),
    ensures
        le(a, c),
{
    assert forall|i: int| 0 <= i < a.len() implies #[trigger] a[i] <= c[i] by {
        assert(a[i] <= b[i]);
        assert(b[i] <= c[i]);
    }
}

} // verus!
