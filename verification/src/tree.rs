//! The Huffman tree and its mathematical model: the symbols a tree holds,
//! the code table it induces, and what encoding and decoding mean.
use vstd::prelude::*;

verus! {

/// A node of a Huffman tree: either a terminal leaf holding one symbol, or
/// an internal node with exactly two children.
pub enum HuffTree {
    Leaf(char),
    NonLeaf(Box<TreeRoot>),
}

/// An internal node. Taking the left child corresponds to the bit `true`,
/// the right child to `false`.
pub struct TreeRoot {
    pub lhs: HuffTree,
    pub rhs: HuffTree,
}

/// The encoder's single failure: the message holds a symbol for which the
/// tree has no leaf.
#[derive(Debug, PartialEq, Eq)]
pub enum HuffError {
    UnknownSymbol,
}

/// The symbols on the tree's leaves.
pub open spec fn tree_syms(t: HuffTree) -> Set<char>
    decreases t,
{
    match t {
        HuffTree::Leaf(c) => set![c],
        HuffTree::NonLeaf(r) => tree_syms(r.lhs).union(tree_syms(r.rhs)),
    }
}

/// Number of nodes of the tree.
pub open spec fn tree_size(t: HuffTree) -> nat
    decreases t,
{
    match t {
        HuffTree::Leaf(_) => 1,
        HuffTree::NonLeaf(r) => 1 + tree_size(r.lhs) + tree_size(r.rhs),
    }
}

/// Every code of `m`, with `p` stuck on its front.
pub open spec fn prefixed(m: Map<char, Seq<bool>>, p: Seq<bool>) -> Map<char, Seq<bool>> {
    m.map_values(|q: Seq<bool>| p + q)
}

/// The code table of a tree: each leaf symbol mapped to its root-to-leaf bit
/// path, `true` for a step to the left child and `false` for a step to the
/// right. When a symbol sits on several leaves, the rightmost occurrence
/// wins, matching a walk that records left leaves before right ones.
pub open spec fn spec_branches(t: HuffTree) -> Map<char, Seq<bool>>
    decreases t,
{
    match t {
        HuffTree::Leaf(c) => Map::empty().insert(c, Seq::empty()),
        HuffTree::NonLeaf(r) => prefixed(spec_branches(r.lhs), seq![true]).union_prefer_right(
            prefixed(spec_branches(r.rhs), seq![false]),
        ),
    }
}

/// Decoding below a root: the cursor stands on the internal node `pos`;
/// each bit picks a child; a leaf emits its symbol and resets the cursor to
/// `root`. Bits that run out mid-path emit nothing.
pub open spec fn spec_decode_from(root: TreeRoot, pos: TreeRoot, bits: Seq<bool>) -> Seq<char>
    decreases bits.len(),
{
    if bits.len() == 0 {
        Seq::empty()
    } else {
        let sub = if bits[0] {
            pos.lhs
        } else {
            pos.rhs
        };
        match sub {
            HuffTree::Leaf(c) => seq![c] + spec_decode_from(root, root, bits.drop_first()),
            HuffTree::NonLeaf(r) => spec_decode_from(root, *r, bits.drop_first()),
        }
    }
}

/// What decoding `bits` against `t` returns. A bare leaf carries no
/// branching information: every bit stands for one occurrence of its symbol.
pub open spec fn spec_decode(t: HuffTree, bits: Seq<bool>) -> Seq<char> {
    match t {
        HuffTree::Leaf(c) => Seq::new(bits.len(), |i: int| c),
        HuffTree::NonLeaf(r) => spec_decode_from(*r, *r, bits),
    }
}

/// Encoding succeeds exactly when every symbol of the message is in the
/// tree's code table.
pub open spec fn spec_encode_ok(t: HuffTree, msg: Seq<char>) -> bool {
    forall|i: int| 0 <= i < msg.len() ==> spec_branches(t).dom().contains(#[trigger] msg[i])
}

/// The codes of the message's symbols, concatenated in message order.
pub open spec fn spec_concat_codes(t: HuffTree, msg: Seq<char>) -> Seq<bool>
    decreases msg.len(),
{
    if msg.len() == 0 {
        Seq::empty()
    } else {
        spec_branches(t)[msg[0]] + spec_concat_codes(t, msg.drop_first())
    }
}

/// What encoding `msg` against `t` returns when it succeeds. Against a bare
/// leaf every occurrence becomes the single bit `true`; the decoder reads
/// any bit back as one occurrence, so the value carries no information.
pub open spec fn spec_encode_bits(t: HuffTree, msg: Seq<char>) -> Seq<bool> {
    match t {
        HuffTree::Leaf(c) => Seq::new(msg.len(), |i: int| true),
        HuffTree::NonLeaf(r) => spec_concat_codes(t, msg),
    }
}

/// `p` is a prefix of `q`.
pub open spec fn is_prefix_of(p: Seq<bool>, q: Seq<bool>) -> bool {
    p.len() <= q.len() && p == q.take(p.len() as int)
}

} // verus!
