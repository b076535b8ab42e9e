use vstd::prelude::*;
use vstd::string::{StrSliceExecFns, StringExecFns, StringSliceAdditionalSpecFns};
use vstd::utf8::{
    decode_utf8, encode_utf8, encode_utf8_decode_utf8, encode_utf8_first_scalar, encode_utf8_valid_utf8,
    is_char_boundary, is_char_boundary_start_end_of_seq,
};

use crate::slice::{lemma_prefix_step, lemma_total_split, TreeSlice};
use crate::tree::Tree;
use crate::summary::{
    contents, fits, lemma_contents_concat, lemma_contents_single, lemma_total_len, minus, plus,
    total, zeros, BalancedLeaf, Leaf, Metric, Summarize,
};

verus! {

broadcast use vstd::slice::group_slice_axioms;

/// The length of the UTF-8 encoding of `s`, in bytes.
pub open spec fn byte_len(s: Seq<char>) -> nat {
    encode_utf8(s).len()
}

/// How many line feeds `s` holds.
pub open spec fn count_lf(s: Seq<char>) -> nat
    decreases s.len(),
{
    if s.len() == 0 {
        0
    } else {
        count_lf(s.drop_last()) + if s.last() == '\n' {
            1nat
        } else {
            0nat
        }
    }
}

/// A cut between `a` and `b` would part a `\r\n` pair.
pub open spec fn splits_crlf(a: Seq<char>, b: Seq<char>) -> bool {
    a.len() > 0 && b.len() > 0 && a.last() == '\r' && b[0] == '\n'
}

pub proof fn lemma_encode_concat(a: Seq<char>, b: Seq<char>)
    ensures
        encode_utf8(a + b) == encode_utf8(a) + encode_utf8(b),
    decreases a.len(),
{
    if a.len() == 0 {
        assert(a + b =~= b);
        assert(encode_utf8(a) =~= Seq::<u8>::empty());
        assert(encode_utf8(a) + encode_utf8(b) =~= encode_utf8(b));
    } else {
        assert((a + b).drop_first() =~= a.drop_first() + b);
        assert((a + b)[0] == a[0]);
        lemma_encode_concat(a.drop_first(), b);
        assert(encode_utf8(a + b) =~= encode_utf8(a) + encode_utf8(b));
    }
}

pub proof fn lemma_count_lf_concat(a: Seq<char>, b: Seq<char>)
    ensures
        count_lf(a + b) == count_lf(a) + count_lf(b),
    decreases b.len(),
{
    if b.len() == 0 {
        assert(a + b =~= a);
    } else {
        assert((a + b).drop_last() =~= a + b.drop_last());
        assert((a + b).last() == b.last());
        lemma_count_lf_concat(a, b.drop_last());
    }
}

/// Two strings whose encodings put end to end give the encoding of `s`
/// are the two parts of `s`.
proof fn lemma_parts(s: Seq<char>, a: Seq<char>, b: Seq<char>)
    requires
        encode_utf8(a) + encode_utf8(b) == encode_utf8(s),
    ensures
        a + b == s,
{
    lemma_encode_concat(a, b);
    encode_utf8_decode_utf8(a + b);
    encode_utf8_decode_utf8(s);
}

/// The length of `s` in bytes.
pub(crate) fn byte_length(s: &str) -> (r: usize)
    ensures
        r == byte_len(s@),
{
    s.as_bytes().len()
}

/// The parts of a text cut at a byte offset are what `split_bytes` gives.
proof fn lemma_split_bytes(s: Seq<char>, a: Seq<char>, b: Seq<char>, k: int)
    requires
        a + b == s,
        byte_len(a) == k,
    ensures
        split_bytes(s, k) == (a, b),
{
    let bytes = encode_utf8(s);
    lemma_encode_concat(a, b);
    assert(bytes.subrange(0, k) =~= encode_utf8(a));
    assert(bytes.subrange(k, bytes.len() as int) =~= encode_utf8(b));
    encode_utf8_decode_utf8(a);
    encode_utf8_decode_utf8(b);
}

/// Cuts `s` at the byte offset `mid`, which must be a character boundary.
fn cut(s: &str, mid: usize) -> (r: (&str, &str))
    requires
        is_char_boundary(s.spec_bytes(), mid as int),
    ensures
        r.0@ + r.1@ == s@,
        byte_len(r.0@) == mid,
{
    proof {
        encode_utf8_valid_utf8(s@);
    }
    let r = s.split_at(mid);
    proof {
        assert(r.0.spec_bytes() + r.1.spec_bytes() =~= s.spec_bytes());
        lemma_parts(s@, r.0@, r.1@);
    }
    r
}

/// Relies on `str_indices::lines_lf::count_breaks`: the number of line
/// feeds in the text.
#[verifier::external_body]
fn count_breaks(text: &str) -> (r: usize)
    ensures
        r == count_lf(text@),
{
    str_indices::lines_lf::count_breaks(text)
}

/// A character boundary of `a + b` before the end of `a` is one of `a`.
proof fn lemma_boundary_in_prefix(s: Seq<char>, a: Seq<char>, b: Seq<char>, i: int)
    requires
        a + b == s,
        0 <= i <= byte_len(a),
        is_char_boundary(encode_utf8(s), i),
    ensures
        is_char_boundary(encode_utf8(a), i),
{
    lemma_encode_concat(a, b);
    encode_utf8_valid_utf8(s);
    encode_utf8_valid_utf8(a);
    let bytes = encode_utf8(s);
    let pre = encode_utf8(a);
    if i == pre.len() {
        is_char_boundary_start_end_of_seq(pre);
    } else {
        vstd::utf8::is_char_boundary_iff_not_is_continuation_byte(bytes, i);
        vstd::utf8::is_char_boundary_iff_not_is_continuation_byte(pre, i);
        assert(bytes[i] == pre[i]);
    }
}

fn ends_with_cr(s: &str) -> (r: bool)
    ensures
        r == (s@.len() > 0 && s@.last() == '\r'),
{
    let n = s.unicode_len();
    n > 0 && s.get_char(n - 1) == '\r'
}

fn starts_with_lf(s: &str) -> (r: bool)
    ensures
        r == (s@.len() > 0 && s@[0] == '\n'),
{
    let n = s.unicode_len();
    n > 0 && s.get_char(0) == '\n'
}

/// The first character boundary of the UTF-8 text `b` at or after
/// `from`.
pub open spec fn first_boundary(b: Seq<u8>, from: int) -> int
    decreases b.len() - from,
{
    if from >= b.len() || is_char_boundary(b, from) {
        from
    } else {
        first_boundary(b, from + 1)
    }
}

/// The last character boundary of the UTF-8 text `b` at or before `from`.
pub open spec fn last_boundary(b: Seq<u8>, from: int) -> int
    decreases from,
{
    if from <= 0 || is_char_boundary(b, from) {
        from
    } else {
        last_boundary(b, from - 1)
    }
}

/// The text `s` cut in two at the byte offset `k`.
pub open spec fn split_bytes(s: Seq<char>, k: int) -> (Seq<char>, Seq<char>) {
    let b = encode_utf8(s);
    (decode_utf8(b.subrange(0, k)), decode_utf8(b.subrange(k, b.len() as int)))
}

/// Two parts of a text, with a line feed that follows a carriage return
/// at the end of the first moved over to it.
pub open spec fn crlf_left(a: Seq<char>, b: Seq<char>) -> (Seq<char>, Seq<char>) {
    if splits_crlf(a, b) {
        (a.push('\n'), b.drop_first())
    } else {
        (a, b)
    }
}

/// Two parts of a text, with a carriage return that precedes a line feed
/// at the start of the second moved over to it.
pub open spec fn crlf_right(a: Seq<char>, b: Seq<char>) -> (Seq<char>, Seq<char>) {
    if splits_crlf(a, b) {
        (a.drop_last(), seq!['\r'] + b)
    } else {
        (a, b)
    }
}

/// `l` filled up to `min` bytes from the front of `r`: the cut goes to the
/// first character boundary that gives `l` enough, and over a line feed
/// that follows a carriage return.
pub open spec fn take_from_right(l: Seq<char>, r: Seq<char>, min: nat) -> (Seq<char>, Seq<char>) {
    let p = split_bytes(r, first_boundary(encode_utf8(r), min - byte_len(l)));
    let q = crlf_left(p.0, p.1);
    (l + q.0, q.1)
}

/// `r` filled up to `min` bytes from the back of `l`: the cut goes to the
/// last character boundary that gives `r` enough, and before a carriage
/// return that precedes a line feed.
pub open spec fn take_from_left(l: Seq<char>, r: Seq<char>, min: nat) -> (Seq<char>, Seq<char>) {
    let p = split_bytes(l, last_boundary(encode_utf8(l), byte_len(l) - (min - byte_len(r))));
    let q = crlf_right(p.0, p.1);
    (q.0, q.1 + r)
}

/// The texts of the chunks that balancing two neighbouring chunks of at
/// most `max` bytes gives: both unchanged where each has half of `max`;
/// one chunk where they fit in `max`; else the short one filled up from
/// the other, or one chunk where that would leave either of them short.
pub open spec fn balanced_texts(l: Seq<char>, r: Seq<char>, max: nat) -> (Seq<char>, Option<Seq<char>>) {
    let min = max / 2;
    if byte_len(l) >= min && byte_len(r) >= min {
        (l, Some(r))
    } else if byte_len(l) + byte_len(r) <= max {
        (l + r, None)
    } else {
        let p = if byte_len(l) < min {
            take_from_right(l, r, min)
        } else {
            take_from_left(l, r, min)
        };
        if p.0.len() == 0 || p.1.len() == 0 || byte_len(p.0) < min || byte_len(p.1) < min {
            (l + r, None)
        } else {
            (p.0, Some(p.1))
        }
    }
}

/// Where the chunker cuts the text `s`, at least `max` bytes long: at the
/// first character boundary at or after `max`, or one byte further where
/// that boundary falls between `\r` and `\n`.
pub open spec fn chunk_end(s: Seq<char>, max: nat) -> int {
    let b = encode_utf8(s);
    let k = first_boundary(b, max as int);
    if splits_crlf(decode_utf8(b.subrange(0, k)), decode_utf8(b.subrange(k, b.len() as int))) {
        k + 1
    } else {
        k
    }
}

/// The first character boundary of `s` at or after `from`.
fn next_boundary(s: &str, from: usize) -> (r: usize)
    requires
        from <= byte_len(s@),
    ensures
        from <= r <= byte_len(s@),
        is_char_boundary(s.spec_bytes(), r as int),
        r == first_boundary(s.spec_bytes(), from as int),
{
    proof {
        encode_utf8_valid_utf8(s@);
        is_char_boundary_start_end_of_seq(s.spec_bytes());
    }
    let n = byte_length(s);
    let mut k = from;
    while k < n && !s.is_char_boundary(k)
        invariant
            from <= k <= n,
            n == byte_len(s@),
            is_char_boundary(s.spec_bytes(), n as int),
            first_boundary(s.spec_bytes(), k as int) == first_boundary(s.spec_bytes(), from as int),
        decreases n - k,
    {
        k = k + 1;
    }
    k
}

/// The last character boundary of `s` at or before `from`.
fn previous_boundary(s: &str, from: usize) -> (r: usize)
    requires
        from <= byte_len(s@),
    ensures
        r <= from,
        is_char_boundary(s.spec_bytes(), r as int),
        r == last_boundary(s.spec_bytes(), from as int),
{
    proof {
        encode_utf8_valid_utf8(s@);
        is_char_boundary_start_end_of_seq(s.spec_bytes());
    }
    let mut k = from;
    while k > 0 && !s.is_char_boundary(k)
        invariant
            k <= from,
            is_char_boundary(s.spec_bytes(), 0),
            last_boundary(s.spec_bytes(), k as int) == last_boundary(s.spec_bytes(), from as int),
        decreases k,
    {
        k = k - 1;
    }
    k
}

fn concat(a: &str, b: &str) -> (r: String)
    ensures
        r@ == a@ + b@,
{
    let mut r = a.to_owned();
    r.append(b);
    r
}

/// Where a text of the given parts is cut in two, moves a line feed that
/// follows a carriage return to the left side, so that the pair stays in
/// one piece.
fn keep_crlf_left(a: &str, b: &str) -> (r: (String, String))
    ensures
        (r.0@, r.1@) == crlf_left(a@, b@),
        r.0@ + r.1@ == a@ + b@,
        !splits_crlf(r.0@, r.1@),
        r.0@.len() >= a@.len(),
        byte_len(r.0@) >= byte_len(a@),
{
    if ends_with_cr(a) && starts_with_lf(b) {
        let n = b.unicode_len();
        let lf = b.substring_char(0, 1);
        let rest = b.substring_char(1, n);
        let left = concat(a, lf);
        let right = rest.to_owned();
        proof {
            lemma_encode_concat(a@, lf@);
            assert(lf@ =~= seq!['\n']);
            assert(b@ =~= lf@ + rest@);
            assert(left@.last() == '\n');
            assert(left@ =~= a@.push('\n'));
            assert(right@ =~= b@.drop_first());
            lemma_encode_concat(a@, lf@);
            assert(seq!['\n'].drop_first() =~= Seq::<char>::empty());
            assert(seq!['\n'][0] as u32 == 10) by {
                vstd::utf8::char_u32_cast('\n', 10);
            }
            assert(encode_utf8(Seq::<char>::empty()) =~= Seq::<u8>::empty());
            assert(encode_utf8(seq!['\n']).len() == 1);
        }
        (left, right)
    } else {
        (a.to_owned(), b.to_owned())
    }
}

/// Where a text of the given parts is cut in two, moves a carriage
/// return that precedes a line feed to the right side, so that the pair
/// stays in one piece.
fn keep_crlf_right(a: &str, b: &str) -> (r: (String, String))
    ensures
        (r.0@, r.1@) == crlf_right(a@, b@),
        r.0@ + r.1@ == a@ + b@,
        !splits_crlf(r.0@, r.1@),
        r.1@.len() >= b@.len(),
        byte_len(r.1@) >= byte_len(b@),
{
    if ends_with_cr(a) && starts_with_lf(b) {
        let n = a.unicode_len();
        let keep = a.substring_char(0, n - 1);
        let cr = a.substring_char(n - 1, n);
        let right = concat(cr, b);
        let left = keep.to_owned();
        proof {
            assert(a@ =~= keep@ + cr@);
            assert(cr@ =~= seq!['\r']);
            assert(left@ =~= a@.drop_last());
            lemma_encode_concat(cr@, b@);
            assert(left@.len() == 0 || left@.last() != '\r' || right@[0] == '\r');
        }
        (left, right)
    } else {
        (a.to_owned(), b.to_owned())
    }
}

/// The summary of a chunk: its length in bytes and its line feeds.
#[derive(Copy, Clone, Default, Debug, PartialEq, Eq)]
pub struct ChunkSummary {
    pub bytes: usize,
    pub line_breaks: usize,
}

/// A leaf of a rope: a short UTF-8 text of about `MAX_BYTES` bytes at
/// most and `MAX_BYTES / 2` at least, except where it is alone.
#[derive(Debug)]
pub struct RopeChunk<const MAX_BYTES: usize> {
    pub text: String,
}

/// A position counted in bytes.
#[derive(Copy, Clone, Debug, PartialEq, Eq)]
pub struct ByteMetric(pub usize);

/// A position counted in line feeds.
#[derive(Copy, Clone, Debug, PartialEq, Eq)]
pub struct RawLineMetric(pub usize);

impl<const MAX_BYTES: usize> RopeChunk<MAX_BYTES> {
    pub fn max_bytes() -> (r: usize)
        ensures
            r == MAX_BYTES,
    {
        MAX_BYTES
    }

    pub fn min_bytes() -> (r: usize)
        ensures
            r == MAX_BYTES / 2,
    {
        MAX_BYTES / 2
    }

    pub fn new(text: String) -> (r: Self)
        ensures
            r.text@ == text@,
    {
        RopeChunk { text }
    }

    pub fn as_str(&self) -> (r: &str)
        ensures
            r@ == self.text@,
    {
        self.text.as_str()
    }
}

impl<const MAX_BYTES: usize> Summarize for RopeChunk<MAX_BYTES> {
    type Summary = ChunkSummary;

    open spec fn arity() -> nat {
        2
    }

    open spec fn counters(s: ChunkSummary) -> Seq<nat> {
        seq![s.bytes as nat, s.line_breaks as nat]
    }

    open spec fn measures(&self) -> Seq<nat> {
        seq![byte_len(self.text@), count_lf(self.text@)]
    }

    proof fn lemma_arity(&self) {
    }

    fn summarize(&self) -> (r: ChunkSummary) {
        let s = self.text.as_str();
        let r = ChunkSummary { bytes: byte_length(s), line_breaks: count_breaks(s) };
        assert(Self::counters(r) =~= self.measures());
        r
    }

    fn empty_summary() -> (r: ChunkSummary) {
        let r = ChunkSummary { bytes: 0, line_breaks: 0 };
        assert(Self::counters(r) =~= zeros(2));
        r
    }

    fn copy_summary(s: &ChunkSummary) -> (r: ChunkSummary) {
        *s
    }

    fn add_summary(acc: &mut ChunkSummary, other: &ChunkSummary) {
        let ghost p = plus(Self::counters(*acc), Self::counters(*other));
        assert(p[0] <= usize::MAX && p[1] <= usize::MAX);
        acc.bytes = acc.bytes + other.bytes;
        acc.line_breaks = acc.line_breaks + other.line_breaks;
        assert(Self::counters(*acc) =~= p);
    }

    fn sub_summary(acc: &mut ChunkSummary, other: &ChunkSummary) {
        assert(Self::counters(*other)[0] <= Self::counters(*acc)[0]);
        assert(Self::counters(*other)[1] <= Self::counters(*acc)[1]);
        acc.bytes = acc.bytes - other.bytes;
        acc.line_breaks = acc.line_breaks - other.line_breaks;
        assert(Self::counters(*acc) =~= minus(Self::counters(*old(acc)), Self::counters(*other)));
    }
}

impl<const MAX_BYTES: usize> Metric<RopeChunk<MAX_BYTES>> for ByteMetric {
    open spec fn index() -> nat {
        0
    }

    open spec fn value(&self) -> nat {
        self.0 as nat
    }

    proof fn lemma_index() {
    }

    fn zero() -> (r: Self) {
        ByteMetric(0)
    }

    fn measure(s: &ChunkSummary) -> (r: Self) {
        ByteMetric(s.bytes)
    }

    fn to_usize(&self) -> (r: usize) {
        self.0
    }

    fn from_usize(n: usize) -> (r: Self) {
        ByteMetric(n)
    }

    open spec fn piece(orig: RopeChunk<MAX_BYTES>, part: RopeChunk<MAX_BYTES>, from: nat, to: nat) -> bool {
        encode_utf8(part.text@) == encode_utf8(orig.text@).subrange(from as int, to as int)
    }

    open spec fn cuttable(orig: RopeChunk<MAX_BYTES>, from: nat, to: nat) -> bool {
        is_char_boundary(encode_utf8(orig.text@), from as int) && is_char_boundary(
            encode_utf8(orig.text@),
            to as int,
        )
    }

    proof fn lemma_piece_measures(
        orig: RopeChunk<MAX_BYTES>,
        p: RopeChunk<MAX_BYTES>,
        q: RopeChunk<MAX_BYTES>,
        from: nat,
        to: nat,
    ) {
        encode_utf8_decode_utf8(p.text@);
        encode_utf8_decode_utf8(q.text@);
    }

    fn slice_leaf(leaf: &RopeChunk<MAX_BYTES>, from: usize, to: usize) -> (r: RopeChunk<MAX_BYTES>) {
        let s = leaf.as_str();
        let (left, c) = cut(s, to);
        proof {
            lemma_boundary_in_prefix(s@, left@, c@, from as int);
        }
        let (a, m) = cut(left, from);
        let r = RopeChunk { text: m.to_owned() };
        proof {
            lemma_encode_concat(a@, m@);
            lemma_encode_concat(left@, c@);
            assert(encode_utf8(s@) == encode_utf8(a@) + encode_utf8(m@) + encode_utf8(c@));
            assert(encode_utf8(m@) =~= encode_utf8(s@).subrange(from as int, to as int));
            lemma_count_lf_concat(a@, m@);
            lemma_count_lf_concat(left@, c@);
        }
        r
    }
}

impl<const MAX_BYTES: usize> Metric<RopeChunk<MAX_BYTES>> for RawLineMetric {
    open spec fn index() -> nat {
        1
    }

    open spec fn value(&self) -> nat {
        self.0 as nat
    }

    proof fn lemma_index() {
    }

    fn zero() -> (r: Self) {
        RawLineMetric(0)
    }

    fn measure(s: &ChunkSummary) -> (r: Self) {
        RawLineMetric(s.line_breaks)
    }

    fn to_usize(&self) -> (r: usize) {
        self.0
    }

    fn from_usize(n: usize) -> (r: Self) {
        RawLineMetric(n)
    }

    open spec fn piece(orig: RopeChunk<MAX_BYTES>, part: RopeChunk<MAX_BYTES>, from: nat, to: nat) -> bool {
        let b = encode_utf8(orig.text@);
        encode_utf8(part.text@) == b.subrange(
            line_start_bytes(b, from) as int,
            line_start_bytes(b, to) as int,
        )
    }

    open spec fn cuttable(orig: RopeChunk<MAX_BYTES>, from: nat, to: nat) -> bool {
        true
    }

    proof fn lemma_piece_measures(
        orig: RopeChunk<MAX_BYTES>,
        p: RopeChunk<MAX_BYTES>,
        q: RopeChunk<MAX_BYTES>,
        from: nat,
        to: nat,
    ) {
        encode_utf8_decode_utf8(p.text@);
        encode_utf8_decode_utf8(q.text@);
    }

    fn slice_leaf(leaf: &RopeChunk<MAX_BYTES>, from: usize, to: usize) -> (r: RopeChunk<MAX_BYTES>) {
        let s = leaf.as_str();
        let i = line_start_offset(s, from);
        let j = line_start_offset(s, to);
        proof {
            encode_utf8_valid_utf8(s@);
            lemma_line_start_bytes_mono(s.spec_bytes(), from as nat, to as nat);
            lemma_line_start_boundary(s.spec_bytes(), to as nat);
        }
        let (left, c) = cut(s, j);
        proof {
            lemma_line_start_boundary(s.spec_bytes(), from as nat);
            lemma_boundary_in_prefix(s@, left@, c@, i as int);
        }
        let (a, m) = cut(left, i);
        let r = RopeChunk { text: m.to_owned() };
        proof {
            lemma_encode_concat(a@, m@);
            lemma_encode_concat(left@, c@);
            assert(encode_utf8(s@) == encode_utf8(a@) + encode_utf8(m@) + encode_utf8(c@));
            assert(encode_utf8(m@) =~= encode_utf8(s@).subrange(i as int, j as int));
            lemma_count_lf_concat(a@, m@);
            lemma_count_lf_concat(left@, c@);
        }
        r
    }
}

impl<const MAX_BYTES: usize> Leaf for RopeChunk<MAX_BYTES> {
    type BaseMetric = ByteMetric;

    open spec fn big_enough(&self) -> bool {
        byte_len(self.text@) >= MAX_BYTES / 2
    }

    fn is_big_enough(&self, summary: &ChunkSummary) -> (r: bool) {
        summary.bytes >= MAX_BYTES / 2
    }
}


/// The measures of two texts put end to end add up.
pub proof fn lemma_measures_concat<const MAX_BYTES: usize>(
    a: RopeChunk<MAX_BYTES>,
    b: RopeChunk<MAX_BYTES>,
    c: RopeChunk<MAX_BYTES>,
)
    requires
        c.text@ == a.text@ + b.text@,
    ensures
        c.measures() == plus(a.measures(), b.measures()),
{
    lemma_encode_concat(a.text@, b.text@);
    lemma_count_lf_concat(a.text@, b.text@);
    assert(c.measures() =~= plus(a.measures(), b.measures()));
}

/// Moves bytes from the start of `right` to the end of `left` until
/// `left` holds at least `min` bytes, cutting at a character boundary and
/// never between a carriage return and a line feed.
fn balance_left_with_right(left: &str, right: &str, min: usize) -> (r: (String, String))
    requires
        byte_len(left@) < min,
        byte_len(left@) + byte_len(right@) > 2 * min,
    ensures
        (r.0@, r.1@) == take_from_right(left@, right@, min as nat),
        r.0@ + r.1@ == left@ + right@,
        !splits_crlf(r.0@, r.1@),
        byte_len(r.0@) >= min,
{
    let need = min - byte_length(left);
    let k = next_boundary(right, need);
    let (a, b) = cut(right, k);
    proof {
        lemma_split_bytes(right@, a@, b@, k as int);
    }
    let (a2, b2) = keep_crlf_left(a, b);
    let joined = concat(left, a2.as_str());
    proof {
        lemma_encode_concat(left@, a2@);
        assert(a@.len() > 0) by {
            if a@.len() == 0 {
                assert(a@ =~= Seq::<char>::empty());
                assert(encode_utf8(a@) =~= Seq::<u8>::empty());
            }
        }
        assert(joined@.last() == a2@.last());
        assert(joined@ + b2@ =~= left@ + (a2@ + b2@));
    }
    (joined, b2)
}

/// Moves bytes from the end of `left` to the start of `right` until
/// `right` holds at least `min` bytes, cutting at a character boundary and
/// never between a carriage return and a line feed.
fn balance_right_with_left(left: &str, right: &str, min: usize) -> (r: (String, String))
    requires
        byte_len(right@) < min,
        byte_len(left@) + byte_len(right@) > 2 * min,
    ensures
        (r.0@, r.1@) == take_from_left(left@, right@, min as nat),
        r.0@ + r.1@ == left@ + right@,
        !splits_crlf(r.0@, r.1@),
        byte_len(r.1@) >= min,
{
    let need = min - byte_length(right);
    let k = previous_boundary(left, byte_length(left) - need);
    let (a, b) = cut(left, k);
    proof {
        lemma_split_bytes(left@, a@, b@, k as int);
    }
    proof {
        lemma_encode_concat(a@, b@);
    }
    let (a2, b2) = keep_crlf_right(a, b);
    let joined = concat(b2.as_str(), right);
    proof {
        lemma_encode_concat(b2@, right@);
        assert(b@.len() > 0) by {
            if b@.len() == 0 {
                assert(b@ =~= Seq::<char>::empty());
                assert(encode_utf8(b@) =~= Seq::<u8>::empty());
            }
        }
        assert(joined@[0] == b2@[0]);
        assert(a2@ + joined@ =~= (a2@ + b2@) + right@);
    }
    (a2, joined)
}

impl<const MAX_BYTES: usize> RopeChunk<MAX_BYTES> {
    fn duplicate(&self) -> (r: Self)
        ensures
            r.text@ == self.text@,
    {
        RopeChunk { text: self.text.clone() }
    }

    fn joined(left: &Self, right: &Self) -> (r: (Self, ChunkSummary))
        requires
            fits(plus(left.measures(), right.measures())),
        ensures
            r.0.text@ == left.text@ + right.text@,
            Self::counters(r.1) == r.0.measures(),
            r.0.measures() == plus(left.measures(), right.measures()),
    {
        let text = concat(left.as_str(), right.as_str());
        let c = RopeChunk { text };
        proof {
            lemma_measures_concat(*left, *right, c);
            assert(byte_len(c.text@) <= usize::MAX && count_lf(c.text@) <= usize::MAX) by {
                assert(plus(left.measures(), right.measures())[0] <= usize::MAX);
                assert(plus(left.measures(), right.measures())[1] <= usize::MAX);
            }
        }
        let s = c.summarize();
        (c, s)
    }
}

impl<const MAX_BYTES: usize> BalancedLeaf for RopeChunk<MAX_BYTES> {
    type Item = char;

    open spec fn content(&self) -> Seq<char> {
        self.text@
    }

    open spec fn balanced_contents(left: Self, right: Self) -> (Seq<char>, Option<Seq<char>>) {
        balanced_texts(left.text@, right.text@, MAX_BYTES as nat)
    }

    #[verifier::rlimit(100)]
    fn balance_slices(
        left: &Self,
        left_summary: &ChunkSummary,
        right: &Self,
        right_summary: &ChunkSummary,
    ) -> (r: ((Self, ChunkSummary), Option<(Self, ChunkSummary)>)) {
        let min = MAX_BYTES / 2;
        if left_summary.bytes >= min && right_summary.bytes >= min {
            return ((left.duplicate(), *left_summary), Some((right.duplicate(), *right_summary)));
        }
        proof {
            assert(plus(left.measures(), right.measures())[0] <= usize::MAX);
        }
        if left_summary.bytes + right_summary.bytes <= MAX_BYTES {
            return (Self::joined(left, right), None);
        }
        let (a, b) = if left_summary.bytes < min {
            balance_left_with_right(left.as_str(), right.as_str(), min)
        } else {
            balance_right_with_left(left.as_str(), right.as_str(), min)
        };
        if a.as_str().is_empty() || b.as_str().is_empty() || byte_length(a.as_str()) < min
            || byte_length(b.as_str()) < min {
            return (Self::joined(left, right), None);
        }
        let first = RopeChunk { text: a };
        let second = RopeChunk { text: b };
        proof {
            lemma_encode_concat(left.text@, right.text@);
            lemma_count_lf_concat(left.text@, right.text@);
            lemma_encode_concat(first.text@, second.text@);
            lemma_count_lf_concat(first.text@, second.text@);
            assert(first.text@ + second.text@ == left.text@ + right.text@);
            assert(encode_utf8(first.text@ + second.text@) == encode_utf8(left.text@ + right.text@));
            assert((encode_utf8(first.text@) + encode_utf8(second.text@)).len() == encode_utf8(first.text@).len() + encode_utf8(second.text@).len());
            assert((encode_utf8(left.text@) + encode_utf8(right.text@)).len() == encode_utf8(left.text@).len() + encode_utf8(right.text@).len());
            assert(count_lf(first.text@ + second.text@) == count_lf(left.text@ + right.text@));
            assert(byte_len(first.text@) + byte_len(second.text@) == byte_len(left.text@) + byte_len(right.text@));
            assert(count_lf(first.text@) + count_lf(second.text@) == count_lf(left.text@) + count_lf(right.text@));
            assert(plus(first.measures(), second.measures()) =~= plus(left.measures(), right.measures()));
            assert(plus(left.measures(), right.measures())[1] <= usize::MAX);
        }
        let first_summary = first.summarize();
        let second_summary = second.summarize();
        ((first, first_summary), Some((second, second_summary)))
    }
}


/// Cuts a text into chunks, front to back.
pub struct RopeChunkIter<'a, const MAX_BYTES: usize> {
    pub text: &'a str,
}

impl<'a, const MAX_BYTES: usize> RopeChunkIter<'a, MAX_BYTES> {
    pub fn new(text: &'a str) -> (r: Self)
        ensures
            r.text@ == text@,
    {
        RopeChunkIter { text }
    }

    /// The next chunk: while the rest holds at least `MAX_BYTES` bytes, a
    /// prefix of `MAX_BYTES` bytes, stretched to the next character
    /// boundary and over a line feed that follows a carriage return at its
    /// end; then all that is left.
    #[verifier::rlimit(100)]
    pub fn next(&mut self) -> (r: Option<RopeChunk<MAX_BYTES>>)
        requires
            MAX_BYTES > 0,
        ensures
            match r {
                None => old(self).text@.len() == 0 && final(self).text@ == old(self).text@,
                Some(c) => {
                    &&& c.text@.len() > 0
                    &&& c.text@ + final(self).text@ == old(self).text@
                    &&& !splits_crlf(c.text@, final(self).text@)
                    &&& byte_len(old(self).text@) < MAX_BYTES ==> final(self).text@.len() == 0
                    &&& byte_len(old(self).text@) >= MAX_BYTES ==> byte_len(c.text@) >= MAX_BYTES
                    &&& byte_len(old(self).text@) >= MAX_BYTES ==> byte_len(c.text@) == chunk_end(
                        old(self).text@,
                        MAX_BYTES as nat,
                    )
                    &&& byte_len(c.text@) <= MAX_BYTES + 3
                },
            },
    {
        let n = byte_length(self.text);
        if n == 0 {
            proof {
                assert(self.text@.len() == 0) by {
                    if self.text@.len() > 0 {
                        encode_utf8_first_scalar(self.text@);
                    }
                }
            }
            return None;
        }
        if n < MAX_BYTES {
            let m = self.text.unicode_len();
            let chunk = RopeChunk { text: self.text.to_owned() };
            let rest = self.text.substring_char(m, m);
            proof {
                assert(chunk.text@.len() > 0) by {
                    if chunk.text@.len() == 0 {
                        assert(chunk.text@ =~= Seq::<char>::empty());
                        assert(encode_utf8(chunk.text@) =~= Seq::<u8>::empty());
                    }
                }
                assert(chunk.text@ + rest@ =~= self.text@);
            }
            self.text = rest;
            return Some(chunk);
        }
        let k = next_boundary(self.text, MAX_BYTES);
        let (a, b) = cut(self.text, k);
        proof {
            let bytes = encode_utf8(self.text@);
            lemma_encode_concat(a@, b@);
            assert(bytes.subrange(0, k as int) =~= encode_utf8(a@));
            assert(bytes.subrange(k as int, bytes.len() as int) =~= encode_utf8(b@));
            encode_utf8_decode_utf8(a@);
            encode_utf8_decode_utf8(b@);
            assert(a@.len() > 0) by {
                if a@.len() == 0 {
                    assert(a@ =~= Seq::<char>::empty());
                    assert(encode_utf8(a@) =~= Seq::<u8>::empty());
                }
            }
            encode_utf8_valid_utf8(self.text@);
            lemma_boundary_near(bytes, MAX_BYTES as int);
            let j = choose|j: int|
                MAX_BYTES <= j <= MAX_BYTES + 3 && j <= bytes.len() && is_char_boundary(bytes, j);
            lemma_first_boundary_before(bytes, MAX_BYTES as int, j);
            if a@.len() > 0 && a@.last() == '\r' {
                let init = a@.drop_last();
                assert(a@ =~= init + seq!['\r']);
                lemma_encode_concat(init, seq!['\r']);
                assert(seq!['\r'].drop_first() =~= Seq::<char>::empty());
                assert(seq!['\r'][0] as u32 == 13) by {
                    vstd::utf8::char_u32_cast('\r', 13);
                }
                assert(encode_utf8(Seq::<char>::empty()) =~= Seq::<u8>::empty());
                assert((13u32 & 0x7F) as u8 == 13u8) by (bit_vector);
                assert(encode_utf8(seq!['\r']) =~= seq![13u8]);
                assert(bytes[k - 1] == 13);
                if k < bytes.len() {
                    vstd::utf8::is_char_boundary_iff_not_is_continuation_byte(bytes, k - 1);
                    if k - 1 >= MAX_BYTES {
                        lemma_first_boundary_least(bytes, MAX_BYTES as int, k - 1);
                    }
                }
            }
        }
        if ends_with_cr(a) && starts_with_lf(b) {
            let m = b.unicode_len();
            let lf = b.substring_char(0, 1);
            let rest = b.substring_char(1, m);
            let chunk = RopeChunk { text: concat(a, lf) };
            proof {
                lemma_encode_concat(a@, lf@);
                assert(b@ =~= lf@ + rest@);
                assert(chunk.text@ + rest@ =~= a@ + b@);
                assert(lf@ =~= seq!['\n']);
                assert(chunk.text@.last() == '\n');
                assert(seq!['\n'].drop_first() =~= Seq::<char>::empty());
                assert(seq!['\n'][0] as u32 == 10) by {
                    vstd::utf8::char_u32_cast('\n', 10);
                }
                assert(encode_utf8(Seq::<char>::empty()) =~= Seq::<u8>::empty());
                assert(encode_utf8(seq!['\n']).len() == 1);
            }
            self.text = rest;
            Some(chunk)
        } else {
            let chunk = RopeChunk { text: a.to_owned() };
            self.text = b;
            Some(chunk)
        }
    }

    /// All the chunks of `text`, front to back: they put together give
    /// `text`, never part a `\r\n` pair, and all but the last hold at
    /// least `MAX_BYTES` bytes.
    #[verifier::rlimit(100)]
    pub fn chunks(text: &'a str) -> (r: Vec<RopeChunk<MAX_BYTES>>)
        requires
            MAX_BYTES > 0,
        ensures
            contents(r@) == text@,
            forall|q: int| 0 <= q < r@.len() ==> (#[trigger] r@[q]).text@.len() > 0,
            forall|q: int|
                0 <= q < r@.len() - 1 ==> !splits_crlf(#[trigger] r@[q].text@, r@[q + 1].text@),
            forall|q: int|
                0 <= q < r@.len() - 1 ==> byte_len(#[trigger] r@[q].text@) >= MAX_BYTES,
    {
        let mut it = Self::new(text);
        let mut out: Vec<RopeChunk<MAX_BYTES>> = Vec::new();
        proof {
            assert(contents(out@) =~= Seq::<char>::empty());
            assert(contents(out@) + it.text@ =~= text@);
        }
        loop
            invariant
                MAX_BYTES > 0,
                contents(out@) + it.text@ == text@,
                forall|q: int| 0 <= q < out@.len() ==> (#[trigger] out@[q]).text@.len() > 0,
                forall|q: int|
                    0 <= q < out@.len() - 1 ==> !splits_crlf(#[trigger] out@[q].text@, out@[q + 1].text@),
                forall|q: int|
                    0 <= q < out@.len() - 1 ==> byte_len(#[trigger] out@[q].text@) >= MAX_BYTES,
                out@.len() > 0 ==> !splits_crlf(out@.last().text@, it.text@),
                out@.len() > 0 && it.text@.len() > 0 ==> byte_len(out@.last().text@) >= MAX_BYTES,
            decreases it.text@.len(),
        {
            let ghost rest = it.text@;
            let ghost prev = out@;
            match it.next() {
                None => {
                    proof {
                        assert(contents(out@) =~= text@);
                    }
                    return out;
                },
                Some(c) => {
                    proof {
                        lemma_contents_concat(prev, seq![c]);
                        lemma_contents_single(c);
                        assert(c.text@[0] == rest[0]);
                    }
                    out.push(c);
                    proof {
                        assert(out@ =~= prev + seq![c]);
                        assert(contents(out@) + it.text@ =~= text@);
                        assert forall|q: int| 0 <= q < out@.len() - 1 implies !splits_crlf(
                            #[trigger] out@[q].text@,
                            out@[q + 1].text@,
                        ) by {
                            if q < prev.len() - 1 {
                                assert(out@[q] == prev[q] && out@[q + 1] == prev[q + 1]);
                            } else {
                                assert(out@[q] == prev.last());
                                assert(out@[q + 1] == c);
                            }
                        }
                        assert forall|q: int| 0 <= q < out@.len() - 1 implies byte_len(
                            #[trigger] out@[q].text@,
                        ) >= MAX_BYTES by {
                            if q < prev.len() - 1 {
                                assert(out@[q] == prev[q]);
                            } else {
                                assert(out@[q] == prev.last());
                            }
                        }
                        assert forall|q: int| 0 <= q < out@.len() implies (#[trigger] out@[q]).text@.len() > 0 by {
                            if q < prev.len() {
                                assert(out@[q] == prev[q]);
                            }
                        }
                    }
                },
            }
        }
    }

    /// Two where more than `MAX_BYTES` bytes are left, else one.
    pub fn len(&self) -> (r: usize)
        ensures
            r == (if byte_len(self.text@) > MAX_BYTES {
                2usize
            } else {
                1usize
            }),
    {
        if byte_length(self.text) > MAX_BYTES {
            2
        } else {
            1
        }
    }
}


proof fn lemma_count_lf_le_len(s: Seq<char>)
    ensures
        count_lf(s) <= s.len(),
    decreases s.len(),
{
    if s.len() > 0 {
        lemma_count_lf_le_len(s.drop_last());
    }
}

proof fn lemma_len_le_byte_len(s: Seq<char>)
    ensures
        s.len() <= byte_len(s),
    decreases s.len(),
{
    if s.len() > 0 {
        lemma_len_le_byte_len(s.drop_first());
        assert(vstd::utf8::encode_scalar(s[0] as u32).len() >= 1);
    }
}

/// The chunks of a sequence add up to the measures of their text.
proof fn lemma_chunks_total<const MAX_BYTES: usize>(cs: Seq<RopeChunk<MAX_BYTES>>)
    ensures
        total(cs) == seq![byte_len(contents(cs)), count_lf(contents(cs))],
        (forall|q: int| 0 <= q < cs.len() ==> (#[trigger] cs[q]).text@.len() > 0) ==> cs.len()
            <= contents(cs).len(),
    decreases cs.len(),
{
    if cs.len() == 0 {
        assert(contents(cs) =~= Seq::<char>::empty());
        assert(encode_utf8(Seq::<char>::empty()) =~= Seq::<u8>::empty());
        assert(total(cs) =~= seq![0nat, 0nat]);
    } else {
        let init = cs.drop_last();
        lemma_chunks_total(init);
        lemma_encode_concat(contents(init), cs.last().text@);
        lemma_count_lf_concat(contents(init), cs.last().text@);
        assert(total(cs) =~= seq![byte_len(contents(cs)), count_lf(contents(cs))]);
        if forall|q: int| 0 <= q < cs.len() ==> (#[trigger] cs[q]).text@.len() > 0 {
            assert forall|q: int| 0 <= q < init.len() implies (#[trigger] init[q]).text@.len() > 0 by {
                assert(init[q] == cs[q]);
            }
            assert(cs.last() == cs[cs.len() - 1]);
        }
    }
}

impl<const FANOUT: usize, const MAX_BYTES: usize> Tree<FANOUT, RopeChunk<MAX_BYTES>> {
    /// A tree whose leaves are the chunks of `text`, or a single empty
    /// chunk where `text` is empty: its leaves put together give `text`.
    #[verifier::rlimit(100)]
    pub fn from_text(text: &str) -> (r: Self)
        requires
            FANOUT >= 2,
            MAX_BYTES > 0,
            byte_len(text@) < usize::MAX,
        ensures
            r.wf(),
            r.filled(),
            contents(r@) == text@,
            forall|q: int|
                0 <= q < r@.len() - 1 ==> !splits_crlf(#[trigger] r@[q].text@, r@[q + 1].text@),
            forall|q: int| 0 <= q < r@.len() - 1 ==> (#[trigger] r@[q]).big_enough(),
    {
        let mut cs = RopeChunkIter::<MAX_BYTES>::chunks(text);
        if cs.len() == 0 {
            let empty = RopeChunk { text: String::new() };
            proof {
                assert(contents(cs@) =~= Seq::<char>::empty());
                lemma_contents_single(empty);
            }
            cs.push(empty);
            proof {
                assert(cs@ =~= seq![empty]);
            }
        }
        proof {
            lemma_chunks_total(cs@);
            lemma_count_lf_le_len(text@);
            lemma_len_le_byte_len(text@);
            assert(fits(total(cs@)));
        }
        Tree::from_leaves(cs)
    }
}


/// A piece cut at the two ends of a chunk is the whole chunk.
proof fn lemma_whole_piece<const MAX_BYTES: usize>(orig: RopeChunk<MAX_BYTES>, part: RopeChunk<MAX_BYTES>)
    requires
        <ByteMetric as Metric<RopeChunk<MAX_BYTES>>>::piece(orig, part, 0, byte_len(orig.text@)),
    ensures
        part.text@ == orig.text@,
{
    assert(encode_utf8(orig.text@).subrange(0, byte_len(orig.text@) as int) =~= encode_utf8(orig.text@));
    encode_utf8_decode_utf8(part.text@);
    encode_utf8_decode_utf8(orig.text@);
}

/// Chunks whose bytes add up to nothing hold no text.
proof fn lemma_no_bytes_no_text<const MAX_BYTES: usize>(cs: Seq<RopeChunk<MAX_BYTES>>)
    requires
        total(cs)[0] == 0,
    ensures
        contents(cs) == Seq::<char>::empty(),
{
    lemma_chunks_total(cs);
    lemma_len_le_byte_len(contents(cs));
    assert(contents(cs) =~= Seq::<char>::empty());
}

/// Slicing a tree of chunks from its first byte to its last gives back
/// its whole text, with the same summary.
pub proof fn lemma_slice_identity<'a, const N: usize, const MAX_BYTES: usize>(
    x: TreeSlice<'a, N, RopeChunk<MAX_BYTES>>,
    s: Seq<RopeChunk<MAX_BYTES>>,
)
    requires
        x.wf(),
        x.is_slice_of::<ByteMetric>(s, 0, total(s)[0]),
    ensures
        contents(x@) == contents(s),
        total(x@) == total(s),
{
    let b = total(s)[0];
    lemma_chunks_total(s);
    lemma_chunks_total(x@);
    if b == 0 {
        lemma_no_bytes_no_text(s);
        assert(x@ =~= Seq::<RopeChunk<MAX_BYTES>>::empty());
        assert(contents(x@) =~= Seq::<char>::empty());
    } else {
        let i = x.start_leaf as int;
        let j = x.end_leaf as int;
        let pre = s.subrange(0, i);
        let mid = s.subrange(i + 1, j);
        let post = s.subrange(j + 1, s.len() as int);
        lemma_prefix_step(s, i);
        lemma_prefix_step(s, j);
        lemma_total_split(s, j + 1);
        lemma_total_len(s.subrange(0, j + 1));
        lemma_no_bytes_no_text(pre);
        lemma_no_bytes_no_text(post);
        if i == j {
            lemma_whole_piece(s[i], x.first->0);
            assert(s =~= pre + seq![s[i]] + post);
            lemma_contents_concat(pre + seq![s[i]], post);
            lemma_contents_concat(pre, seq![s[i]]);
            lemma_contents_single(s[i]);
            lemma_contents_single(x.first->0);
            assert(contents(s) =~= s[i].text@);
        } else {
            lemma_whole_piece(s[i], x.first->0);
            lemma_whole_piece(s[j], x.last->0);
            assert(s =~= pre + (seq![s[i]] + mid + seq![s[j]]) + post);
            lemma_contents_concat(pre + (seq![s[i]] + mid + seq![s[j]]), post);
            lemma_contents_concat(pre, seq![s[i]] + mid + seq![s[j]]);
            lemma_contents_concat(seq![s[i]] + mid, seq![s[j]]);
            lemma_contents_concat(seq![s[i]], mid);
            lemma_contents_single(s[i]);
            lemma_contents_single(s[j]);
            let f = x.first->0;
            let l = x.last->0;
            assert(x@ == seq![f] + mid + seq![l]);
            lemma_contents_concat(seq![f] + mid, seq![l]);
            lemma_contents_concat(seq![f], mid);
            lemma_contents_single(f);
            lemma_contents_single(l);
            assert(contents(x@) =~= contents(s));
        }
    }
}


/// How many line feeds (byte 0x0A) `b` holds.
pub open spec fn count_lf_bytes(b: Seq<u8>) -> nat
    decreases b.len(),
{
    if b.len() == 0 {
        0
    } else {
        (if b[0] == 10 {
            1nat
        } else {
            0nat
        }) + count_lf_bytes(b.drop_first())
    }
}

/// The offset of the first byte after the `k`-th line feed of `b`, or the
/// length of `b` where it holds fewer.
pub open spec fn line_start_bytes(b: Seq<u8>, k: nat) -> nat
    decreases b.len(),
{
    if k == 0 || b.len() == 0 {
        0
    } else if b[0] == 10 {
        1 + line_start_bytes(b.drop_first(), (k - 1) as nat)
    } else {
        1 + line_start_bytes(b.drop_first(), k)
    }
}

/// Relies on `str_indices::lines_lf::from_byte_idx`: the number of line
/// feeds before the byte offset, which is taken as the length of the text
/// past its end.
#[verifier::external_body]
fn lines_before(text: &str, byte_idx: usize) -> (r: usize)
    ensures
        r == count_lf_bytes(
            text.spec_bytes().subrange(
                0,
                if byte_idx <= text.spec_bytes().len() {
                    byte_idx as int
                } else {
                    text.spec_bytes().len() as int
                },
            ),
        ),
{
    str_indices::lines_lf::from_byte_idx(text, byte_idx)
}

/// Relies on `str_indices::lines_lf::to_byte_idx`: the byte offset where
/// the line of the given index starts, right after its preceding line
/// feed; the length of the text past the last line.
#[verifier::external_body]
fn line_start_offset(text: &str, line_idx: usize) -> (r: usize)
    ensures
        r == line_start_bytes(text.spec_bytes(), line_idx as nat),
{
    str_indices::lines_lf::to_byte_idx(text, line_idx)
}

impl<const MAX_BYTES: usize> RopeChunk<MAX_BYTES> {
    /// The index of the line that holds the byte at `byte_index`: the
    /// number of line feeds before it.
    pub fn line_of_byte(&self, byte_index: usize) -> (r: usize)
        requires
            byte_index <= byte_len(self.text@),
        ensures
            r == count_lf_bytes(encode_utf8(self.text@).subrange(0, byte_index as int)),
    {
        lines_before(self.as_str(), byte_index)
    }

    /// The byte offset where the line `line` starts: right after the
    /// `line`-th line feed, or the end of the text where there are fewer.
    pub fn byte_of_line(&self, line: usize) -> (r: usize)
        ensures
            r == line_start_bytes(encode_utf8(self.text@), line as nat),
    {
        line_start_offset(self.as_str(), line)
    }
}

/// The line that holds a byte starts at or before it, and the next line
/// starts after it (or the text ends there).
pub proof fn lemma_line_of_byte_round_trip(b: Seq<u8>, i: int)
    requires
        0 <= i < b.len(),
    ensures
        line_start_bytes(b, count_lf_bytes(b.subrange(0, i))) <= i,
        i < line_start_bytes(b, count_lf_bytes(b.subrange(0, i)) + 1),
    decreases b.len(),
{
    let l = count_lf_bytes(b.subrange(0, i));
    if i == 0 {
        assert(b.subrange(0, 0).len() == 0);
    } else {
        let t = b.drop_first();
        assert(b.subrange(0, i).drop_first() =~= t.subrange(0, i - 1));
        assert(b.subrange(0, i)[0] == b[0]);
        lemma_line_of_byte_round_trip(t, i - 1);
    }
}


proof fn lemma_first_boundary(b: Seq<u8>, from: int)
    requires
        vstd::utf8::valid_utf8(b),
        0 <= from <= b.len(),
    ensures
        from <= first_boundary(b, from) <= b.len(),
        is_char_boundary(b, first_boundary(b, from)),
    decreases b.len() - from,
{
    is_char_boundary_start_end_of_seq(b);
    if !is_char_boundary(b, from) {
        lemma_first_boundary(b, from + 1);
    }
}

proof fn lemma_last_boundary(b: Seq<u8>, from: int)
    requires
        vstd::utf8::valid_utf8(b),
        0 <= from <= b.len(),
    ensures
        0 <= last_boundary(b, from) <= from,
        is_char_boundary(b, last_boundary(b, from)),
    decreases from,
{
    is_char_boundary_start_end_of_seq(b);
    if from > 0 && !is_char_boundary(b, from) {
        lemma_last_boundary(b, from - 1);
    }
}

/// Cut at a character boundary, a text falls in two parts that put
/// together give it back, the first as long in bytes as the offset.
proof fn lemma_split_parts(s: Seq<char>, k: int)
    requires
        is_char_boundary(encode_utf8(s), k),
    ensures
        split_bytes(s, k).0 + split_bytes(s, k).1 == s,
        byte_len(split_bytes(s, k).0) == k,
{
    let b = encode_utf8(s);
    encode_utf8_valid_utf8(s);
    vstd::utf8::valid_utf8_split(b, k);
    vstd::utf8::decode_utf8_encode_utf8(b.subrange(0, k));
    vstd::utf8::decode_utf8_split(b, k);
    encode_utf8_decode_utf8(s);
}

proof fn lemma_empty_has_no_bytes(s: Seq<char>)
    requires
        byte_len(s) > 0,
    ensures
        s.len() > 0,
{
    if s.len() == 0 {
        assert(s =~= Seq::<char>::empty());
        assert(encode_utf8(s) =~= Seq::<u8>::empty());
    }
}

/// Balancing two chunks whose boundary does not part a `\r\n` pair gives
/// chunks whose boundary does not part one either.
pub proof fn lemma_balance_keeps_crlf(l: Seq<char>, r: Seq<char>, max: nat)
    requires
        !splits_crlf(l, r),
    ensures
        balanced_texts(l, r, max).1 matches Some(b) ==> !splits_crlf(balanced_texts(l, r, max).0, b),
{
    let min = max / 2;
    let lb = byte_len(l);
    let rb = byte_len(r);
    if lb >= min && rb >= min {
    } else if lb + rb <= max {
    } else if lb < min {
        let br = encode_utf8(r);
        encode_utf8_valid_utf8(r);
        let k = first_boundary(br, min - lb);
        lemma_first_boundary(br, min - lb);
        lemma_split_parts(r, k);
        let p = split_bytes(r, k);
        lemma_empty_has_no_bytes(p.0);
        let q = crlf_left(p.0, p.1);
        assert(q.0.len() > 0);
        assert(!splits_crlf(q.0, q.1));
        assert((l + q.0).last() == q.0.last());
    } else {
        let bl = encode_utf8(l);
        encode_utf8_valid_utf8(l);
        let k = last_boundary(bl, lb - (min - rb));
        lemma_last_boundary(bl, lb - (min - rb));
        lemma_split_parts(l, k);
        let p = split_bytes(l, k);
        lemma_encode_concat(p.0, p.1);
        lemma_empty_has_no_bytes(p.1);
        let q = crlf_right(p.0, p.1);
        assert(q.1.len() > 0);
        assert(!splits_crlf(q.0, q.1));
        assert((q.1 + r)[0] == q.1[0]);
    }
}


/// Where the `k`-th line starts in `b`: at the start, at the end, or right
/// after a line feed.
proof fn lemma_line_start_shape(b: Seq<u8>, k: nat)
    ensures
        line_start_bytes(b, k) <= b.len(),
        line_start_bytes(b, k) == 0 || line_start_bytes(b, k) == b.len() || b[line_start_bytes(b, k)
            - 1] == 10,
        k > 0 && line_start_bytes(b, k) == 0 ==> b.len() == 0,
    decreases b.len(),
{
    if k > 0 && b.len() > 0 {
        let t = b.drop_first();
        if b[0] == 10 {
            lemma_line_start_shape(t, (k - 1) as nat);
        } else {
            lemma_line_start_shape(t, k);
        }
    }
}

proof fn lemma_line_start_bytes_mono(b: Seq<u8>, a: nat, c: nat)
    requires
        a <= c,
    ensures
        line_start_bytes(b, a) <= line_start_bytes(b, c) <= b.len(),
    decreases b.len(),
{
    lemma_line_start_shape(b, c);
    if a > 0 && b.len() > 0 {
        if b[0] == 10 {
            lemma_line_start_bytes_mono(b.drop_first(), (a - 1) as nat, (c - 1) as nat);
        } else {
            lemma_line_start_bytes_mono(b.drop_first(), a, c);
        }
    }
}

/// In UTF-8, the byte after a line feed starts a character.
proof fn lemma_after_lf_is_boundary(b: Seq<u8>, p: int)
    requires
        vstd::utf8::valid_utf8(b),
        1 <= p < b.len(),
        b[p - 1] == 10,
    ensures
        is_char_boundary(b, p),
{
    vstd::utf8::is_char_boundary_iff_not_is_continuation_byte(b, p - 1);
    vstd::utf8::valid_utf8_split(b, p - 1);
    let t = b.subrange(p - 1, b.len() as int);
    assert(t[0] == 10);
    assert(vstd::utf8::length_of_first_scalar(t) == 1);
    let u = vstd::utf8::pop_first_scalar(t);
    assert(u =~= b.subrange(p, b.len() as int));
    assert(vstd::utf8::valid_utf8(u));
    assert(vstd::utf8::valid_first_scalar(u));
    assert(u[0] == b[p]);
    vstd::utf8::is_char_boundary_iff_not_is_continuation_byte(b, p);
}

/// Where a line starts, a character starts.
proof fn lemma_line_start_boundary(b: Seq<u8>, k: nat)
    requires
        vstd::utf8::valid_utf8(b),
    ensures
        is_char_boundary(b, line_start_bytes(b, k) as int),
{
    lemma_line_start_shape(b, k);
    is_char_boundary_start_end_of_seq(b);
    let p = line_start_bytes(b, k) as int;
    if p != 0 && p != b.len() {
        lemma_after_lf_is_boundary(b, p);
    }
}


/// No character boundary lies between `from` and the first one at or after
/// it.
proof fn lemma_first_boundary_least(b: Seq<u8>, from: int, j: int)
    requires
        from <= j < first_boundary(b, from),
    ensures
        !is_char_boundary(b, j),
    decreases j - from,
{
    if j > from {
        lemma_first_boundary_least(b, from + 1, j);
    }
}

/// Any character boundary at or after `from` is at or after the first one.
proof fn lemma_first_boundary_before(b: Seq<u8>, from: int, j: int)
    requires
        0 <= from <= j <= b.len(),
        is_char_boundary(b, j),
    ensures
        first_boundary(b, from) <= j,
    decreases j - from,
{
    if from < j && !is_char_boundary(b, from) {
        lemma_first_boundary_before(b, from + 1, j);
    }
}

/// In UTF-8 a character boundary lies within three bytes after any
/// offset.
proof fn lemma_boundary_near(b: Seq<u8>, i: int)
    requires
        vstd::utf8::valid_utf8(b),
        0 <= i <= b.len(),
    ensures
        exists|j: int| i <= j <= i + 3 && j <= b.len() && is_char_boundary(b, j),
    decreases b.len(),
{
    is_char_boundary_start_end_of_seq(b);
    if i == 0 {
        assert(is_char_boundary(b, 0));
    } else if i == b.len() {
        assert(is_char_boundary(b, i));
    } else {
        let l = vstd::utf8::length_of_first_scalar(b);
        let t = vstd::utf8::pop_first_scalar(b);
        assert(vstd::utf8::valid_first_scalar(b));
        assert(1 <= l <= 4 && l <= b.len());
        is_char_boundary_start_end_of_seq(t);
        if i <= l {
            assert(is_char_boundary(t, 0));
            assert(is_char_boundary(b, l));
        } else {
            lemma_boundary_near(t, i - l);
            let j2 = choose|j: int| i - l <= j <= i - l + 3 && j <= t.len() && is_char_boundary(t, j);
            assert(is_char_boundary(b, j2 + l));
        }
    }
}

} // verus!
