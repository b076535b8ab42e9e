use crop::chunk::{ByteMetric, ChunkSummary, RawLineMetric, RopeChunk, RopeChunkIter};
use crop::node::{Inode, Lnode, Node};
use crop::summary::{BalancedLeaf, Summarize};
use crop::tree::Tree;
use std::sync::Arc;

type Chunk = RopeChunk<4>;

fn chunk(s: &str) -> Chunk {
    RopeChunk::new(s.to_string())
}

fn texts(tree: &Tree<4, Chunk>) -> Vec<String> {
    tree.leaves().into_iter().map(|c| c.text.clone()).collect()
}

fn chunks_of(text: &str) -> Vec<Chunk> {
    let mut it = RopeChunkIter::<4>::new(text);
    let mut out = Vec::new();
    while let Some(c) = it.next() {
        out.push(c);
    }
    out
}

#[test]
fn two_leaves_and_a_byte_slice() {
    let tree = Tree::<4, Chunk>::from_leaves(vec![chunk("abcd"), chunk("ef")]);
    assert_eq!(tree.depth(), 1);
    assert_eq!(texts(&tree), vec!["abcd", "ef"]);
    assert_eq!(*tree.summary(), ChunkSummary { bytes: 6, line_breaks: 0 });
    let slice = tree.slice(ByteMetric(2)..ByteMetric(5));
    let parts: Vec<String> = slice.leaves().into_iter().map(|c| c.text.clone()).collect();
    assert_eq!(parts, vec!["cd", "e"]);
    assert_eq!(*slice.summary(), ChunkSummary { bytes: 3, line_breaks: 0 });
}

#[test]
fn short_leaves_that_fit_together_are_merged() {
    let left = chunk("abc");
    let right = chunk("d");
    let ((merged, summary), rest) = Chunk::balance_slices(&left, &left.summarize(), &right, &right.summarize());
    assert_eq!(merged.text, "abcd");
    assert_eq!(summary, ChunkSummary { bytes: 4, line_breaks: 0 });
    assert!(rest.is_none());
}

#[test]
fn short_left_leaf_takes_from_the_right() {
    let left = chunk("a");
    let right = chunk("bcde");
    let ((first, s1), rest) = Chunk::balance_slices(&left, &left.summarize(), &right, &right.summarize());
    let (second, s2) = rest.unwrap();
    assert_eq!(first.text, "ab");
    assert_eq!(second.text, "cde");
    assert_eq!(s1, ChunkSummary { bytes: 2, line_breaks: 0 });
    assert_eq!(s2, ChunkSummary { bytes: 3, line_breaks: 0 });
}

#[test]
fn short_right_leaf_takes_from_the_left() {
    let left = chunk("abcd");
    let right = chunk("e");
    let ((first, _), rest) = Chunk::balance_slices(&left, &left.summarize(), &right, &right.summarize());
    let (second, _) = rest.unwrap();
    assert_eq!(first.text, "abc");
    assert_eq!(second.text, "de");
}

#[test]
fn balancing_keeps_crlf_together() {
    let left = chunk("a");
    let right = chunk("\r\nxyz");
    let ((first, s1), rest) = Chunk::balance_slices(&left, &left.summarize(), &right, &right.summarize());
    let (second, _) = rest.unwrap();
    assert_eq!(first.text, "a\r\n");
    assert_eq!(second.text, "xyz");
    assert_eq!(s1, ChunkSummary { bytes: 3, line_breaks: 1 });
}

#[test]
fn balancing_never_cuts_a_code_point() {
    let left = chunk("a");
    let right = chunk("\u{e9}xyz");
    let ((first, _), rest) = Chunk::balance_slices(&left, &left.summarize(), &right, &right.summarize());
    let (second, _) = rest.unwrap();
    assert_eq!(first.text, "a\u{e9}");
    assert_eq!(second.text, "xyz");
}

#[test]
fn big_leaves_are_left_alone() {
    let left = chunk("abc");
    let right = chunk("def");
    let ((first, _), rest) = Chunk::balance_slices(&left, &left.summarize(), &right, &right.summarize());
    assert_eq!(first.text, "abc");
    assert_eq!(rest.unwrap().0.text, "def");
}

#[test]
fn chunker_keeps_crlf_in_one_chunk() {
    let parts: Vec<String> = chunks_of("ab\r\ncd").into_iter().map(|c| c.text).collect();
    assert_eq!(parts, vec!["ab\r\n", "cd"]);
}

#[test]
fn chunker_extends_to_a_char_boundary() {
    let parts: Vec<String> = chunks_of("abc\u{e9}fgh").into_iter().map(|c| c.text).collect();
    assert_eq!(parts, vec!["abc\u{e9}", "fgh"]);
}

#[test]
fn chunker_on_empty_text_gives_nothing() {
    assert!(chunks_of("").is_empty());
    let it = RopeChunkIter::<4>::new("abcdefgh");
    assert_eq!(it.len(), 2);
}

#[test]
fn leaves_reproduce_the_text() {
    let text = "hello\nworld\r\nthis is a rope\n";
    let tree = Tree::<4, Chunk>::from_leaves(chunks_of(text));
    assert_eq!(texts(&tree).concat(), text);
    assert_eq!(*tree.summary(), ChunkSummary { bytes: text.len(), line_breaks: 3 });
    assert!(tree.assert_invariants());
}

#[test]
fn appending_twenty_single_characters() {
    let mut tree = Tree::<4, Chunk>::from_leaves(vec![chunk("")]);
    for _ in 0..20 {
        tree.append(chunk("x"));
    }
    assert_eq!(texts(&tree).concat(), "x".repeat(20));
    assert!(tree.depth() <= 5);
    assert!(tree.assert_invariants());
    assert_eq!(*tree.summary(), ChunkSummary { bytes: 20, line_breaks: 0 });
}

#[test]
fn slicing_by_lines() {
    let tree = Tree::<4, Chunk>::from_leaves(chunks_of("foo\nbar\nbaz"));
    let slice = tree.slice(RawLineMetric(1)..RawLineMetric(2));
    let parts: Vec<String> = slice.leaves().into_iter().map(|c| c.text.clone()).collect();
    assert_eq!(parts.concat(), "bar\n");
    assert_eq!(*slice.summary(), ChunkSummary { bytes: 4, line_breaks: 1 });
}

#[test]
fn a_snapshot_does_not_see_later_appends() {
    let mut tree = Tree::<4, Chunk>::from_leaves(chunks_of("some text here"));
    let copy = tree.snapshot();
    let before = texts(&copy);
    let summary = *copy.summary();
    tree.append(chunk("more"));
    assert_eq!(texts(&copy), before);
    assert_eq!(*copy.summary(), summary);
    assert_eq!(texts(&tree).concat(), "some text heremore");
}

#[test]
fn line_breaks_are_counted() {
    let c = chunk("a\nb\n\u{e9}\n");
    assert_eq!(c.summarize(), ChunkSummary { bytes: 7, line_breaks: 3 });
}

#[test]
fn tree_from_text_reproduces_it() {
    let text = "a rope of\r\nseveral lines\nand \u{e9}\u{e8} accents";
    let tree = Tree::<4, Chunk>::from_text(text);
    assert_eq!(texts(&tree).concat(), text);
    assert!(tree.assert_invariants());
    let empty = Tree::<4, Chunk>::from_text("");
    assert_eq!(texts(&empty), vec![""]);
}

#[test]
fn chunks_of_a_text() {
    let parts: Vec<String> = RopeChunkIter::<4>::chunks("abcdefghij").into_iter().map(|c| c.text).collect();
    assert_eq!(parts, vec!["abcd", "efgh", "ij"]);
}

#[test]
fn line_and_byte_offsets_round_trip() {
    let c = RopeChunk::<1024>::new("ab\ncd\nef".to_string());
    assert_eq!(c.line_of_byte(0), 0);
    assert_eq!(c.line_of_byte(3), 1);
    assert_eq!(c.line_of_byte(5), 1);
    assert_eq!(c.line_of_byte(6), 2);
    assert_eq!(c.byte_of_line(0), 0);
    assert_eq!(c.byte_of_line(1), 3);
    assert_eq!(c.byte_of_line(2), 6);
    assert_eq!(c.byte_of_line(3), 8);
    for i in 0..8 {
        let line = c.line_of_byte(i);
        assert!(c.byte_of_line(line) <= i);
        assert!(i < c.byte_of_line(line + 1));
    }
}

#[test]
fn reslicing_composes() {
    let tree = Tree::<4, Chunk>::from_text("0123456789abcdef");
    let outer = tree.slice(ByteMetric(3)..ByteMetric(13));
    let inner = outer.slice(ByteMetric(2)..ByteMetric(7));
    let direct = tree.slice(ByteMetric(5)..ByteMetric(10));
    let a: Vec<String> = inner.leaves().into_iter().map(|c| c.text.clone()).collect();
    let b: Vec<String> = direct.leaves().into_iter().map(|c| c.text.clone()).collect();
    assert_eq!(a.concat(), "56789");
    assert_eq!(a, b);
    assert_eq!(*inner.summary(), *direct.summary());
}

#[test]
fn whole_byte_slice_is_the_tree() {
    let text = "line one\nline two\n";
    let tree = Tree::<4, Chunk>::from_text(text);
    let slice = tree.slice(ByteMetric(0)..ByteMetric(text.len()));
    let parts: Vec<String> = slice.leaves().into_iter().map(|c| c.text.clone()).collect();
    assert_eq!(parts.concat(), text);
    assert_eq!(*slice.summary(), *tree.summary());
}

fn leaf_node(s: &str) -> Arc<Node<4, Chunk>> {
    Arc::new(Node::Leaf(Lnode::from_value(chunk(s))))
}

fn two_level_inode() -> Inode<4, Chunk> {
    let leaves: Vec<Arc<Node<4, Chunk>>> =
        ["ab", "cd", "ef", "gh", "ij", "kl", "mn", "op"].iter().map(|s| leaf_node(s)).collect();
    Inode::from_nodes(leaves)
}

#[test]
fn two_level_inode_is_built_balanced() {
    let inode = two_level_inode();
    assert_eq!(inode.depth(), 2);
    assert!(inode.assert_invariants());
    assert_eq!(inode.leaf_count(), 8);
    assert_eq!(*inode.summary(), ChunkSummary { bytes: 16, line_breaks: 0 });
}

#[test]
fn inserting_a_leaf_at_depth() {
    let mut inode = two_level_inode();
    inode.insert_at_depth(1, leaf_node("xy"));
    assert_eq!(*inode.summary(), ChunkSummary { bytes: 18, line_breaks: 0 });
    assert_eq!(Node::Internal(inode).summarize(), ChunkSummary { bytes: 18, line_breaks: 0 });
}

#[test]
fn prepending_an_underfilled_leaf() {
    let mut inode = two_level_inode();
    let extra = inode.prepend_at_depth(leaf_node("z"));
    assert!(extra.is_none());
    assert_eq!(*inode.summary(), ChunkSummary { bytes: 17, line_breaks: 0 });
    assert_eq!(inode.leaf_count(), 8);
}

#[test]
fn balancing_the_edges() {
    let mut inode = Inode::<4, Chunk>::from_children(vec![leaf_node("a"), leaf_node("bcd"), leaf_node("e")]);
    inode.balance_left_side();
    inode.balance_right_side();
    assert_eq!(*inode.summary(), ChunkSummary { bytes: 5, line_breaks: 0 });
    assert_eq!(inode.leaf_count(), 2);
}

#[test]
fn appending_to_a_single_empty_leaf_keeps_a_leaf_root() {
    let mut tree = Tree::<4, Chunk>::from_leaves(vec![chunk("")]);
    tree.append(chunk("x"));
    assert_eq!(tree.depth(), 0);
    assert_eq!(texts(&tree), vec!["x"]);
    assert!(tree.assert_invariants());
}

#[test]
fn balancing_merges_when_the_donor_would_run_short() {
    let left = chunk("a\u{20ac}");
    let right = chunk("b");
    let ((merged, summary), rest) = Chunk::balance_slices(&left, &left.summarize(), &right, &right.summarize());
    assert!(rest.is_none());
    assert_eq!(merged.text, "a\u{20ac}b");
    assert_eq!(summary, ChunkSummary { bytes: 5, line_breaks: 0 });
}

#[test]
fn balancing_an_edge_with_a_short_second_child() {
    let mut inode = Inode::<4, Chunk>::from_children(vec![leaf_node("a"), leaf_node("b"), leaf_node("cd")]);
    inode.balance_left_side();
    assert_eq!(*inode.summary(), ChunkSummary { bytes: 4, line_breaks: 0 });
    assert_eq!(inode.leaf_count(), 2);
}
