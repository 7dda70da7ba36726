//! The laws the library obeys, stated over the model and proved: coverage
//! of the built tree, the prefix-free property of every code table, the
//! decode-of-encode round trip, and what truncated input decodes to.
use vstd::prelude::*;

use crate::builder::distinct_syms;
use crate::builder::init_pool;
use crate::builder::lemma_distinct_contains;
use crate::builder::lemma_leaf_pool_index;
use crate::builder::lemma_min_idx;
use crate::builder::merge_step;
use crate::builder::min_idx;
use crate::builder::spec_build;
use crate::builder::spec_huff_tree;
use crate::tree::is_prefix_of;
use crate::tree::prefixed;
use crate::tree::spec_branches;
use crate::tree::spec_concat_codes;
use crate::tree::spec_decode;
use crate::tree::spec_decode_from;
use crate::tree::spec_encode_bits;
use crate::tree::spec_encode_ok;
use crate::tree::tree_syms;
use crate::tree::HuffTree;
use crate::tree::TreeRoot;

verus! {

/// The symbols of all subtrees in a working pool.
pub open spec fn pool_syms(p: Seq<(HuffTree, int)>) -> Set<char>
    decreases p.len(),
{
    if p.len() == 0 {
        Set::empty()
    } else {
        pool_syms(p.drop_last()).union(tree_syms(p.last().0))
    }
}

/// Decoding about to enter subtree `t`: a leaf emits its symbol and the
/// walk goes on from the root; an internal node is walked into.
pub open spec fn spec_walk(root: TreeRoot, t: HuffTree, bits: Seq<bool>) -> Seq<char> {
    match t {
        HuffTree::Leaf(c) => seq![c] + spec_decode_from(root, root, bits),
        HuffTree::NonLeaf(r) => spec_decode_from(root, *r, bits),
    }
}

/// A code's value under a path prefix.
proof fn lemma_prefixed_value(m: Map<char, Seq<bool>>, p: Seq<bool>, k: char)
    requires
        m.dom().contains(k),
    ensures
        prefixed(m, p).dom().contains(k),
        prefixed(m, p)[k] == p + m[k],
{
}

/// A code table's domain is exactly the tree's leaf symbols.
pub proof fn lemma_branches_dom(t: HuffTree)
    ensures
        spec_branches(t).dom() == tree_syms(t),
    decreases t,
{
    match t {
        HuffTree::Leaf(c) => {
            assert(spec_branches(t).dom() =~= tree_syms(t));
        },
        HuffTree::NonLeaf(r) => {
            lemma_branches_dom(r.lhs);
            lemma_branches_dom(r.rhs);
            assert(spec_branches(t).dom() =~= tree_syms(t));
        },
    }
}

/// Following a symbol's code from its subtree's top emits that symbol and
/// leaves the walk back at the root, ready for the rest of the bits.
proof fn lemma_walk(root: TreeRoot, t: HuffTree, c: char, p: Seq<bool>, rest: Seq<bool>)
    requires
        spec_branches(t).dom().contains(c),
        spec_branches(t)[c] == p,
    ensures
        spec_walk(root, t, p + rest) == seq![c] + spec_decode_from(root, root, rest),
    decreases t,
{
    match t {
        HuffTree::Leaf(d) => {
            assert(c == d);
            assert(p == Seq::<bool>::empty());
            assert(p + rest =~= rest);
        },
        HuffTree::NonLeaf(r) => {
            let lm = prefixed(spec_branches(r.lhs), seq![true]);
            let rm = prefixed(spec_branches(r.rhs), seq![false]);
            if rm.dom().contains(c) {
                let p2 = spec_branches(r.rhs)[c];
                lemma_prefixed_value(spec_branches(r.rhs), seq![false], c);
                assert(p == seq![false] + p2);
                assert((p + rest).len() > 0);
                assert((p + rest)[0] == false);
                assert((p + rest).drop_first() =~= p2 + rest);
                lemma_walk(root, r.rhs, c, p2, rest);
                assert(spec_decode_from(root, *r, p + rest) == spec_walk(
                    root,
                    r.rhs,
                    (p + rest).drop_first(),
                ));
            } else {
                assert(lm.dom().contains(c));
                let p2 = spec_branches(r.lhs)[c];
                lemma_prefixed_value(spec_branches(r.lhs), seq![true], c);
                assert(p == seq![true] + p2);
                assert((p + rest).len() > 0);
                assert((p + rest)[0] == true);
                assert((p + rest).drop_first() =~= p2 + rest);
                lemma_walk(root, r.lhs, c, p2, rest);
                assert(spec_decode_from(root, *r, p + rest) == spec_walk(
                    root,
                    r.lhs,
                    (p + rest).drop_first(),
                ));
            }
        },
    }
}

/// Decoding an encoded message followed by anything yields the message
/// followed by whatever the rest decodes to.
pub proof fn lemma_decode_append(t: HuffTree, msg: Seq<char>, rest: Seq<bool>)
    requires
        spec_encode_ok(t, msg),
    ensures
        spec_decode(t, spec_encode_bits(t, msg) + rest) == msg + spec_decode(t, rest),
    decreases msg.len(),
{
    match t {
        HuffTree::Leaf(c) => {
            assert forall|i: int| 0 <= i < msg.len() implies msg[i] == c by {
                assert(spec_branches(t).dom().contains(msg[i]));
            }
            assert(spec_decode(t, spec_encode_bits(t, msg) + rest) =~= msg + spec_decode(
                t,
                rest,
            ));
        },
        HuffTree::NonLeaf(r) => {
            if msg.len() == 0 {
                assert(spec_encode_bits(t, msg) + rest =~= rest);
                assert(msg + spec_decode(t, rest) =~= spec_decode(t, rest));
            } else {
                let c = msg[0];
                let p = spec_branches(t)[c];
                let tail = msg.drop_first();
                assert(spec_branches(t).dom().contains(c));
                assert forall|i: int| 0 <= i < tail.len() implies spec_branches(
                    t,
                ).dom().contains(#[trigger] tail[i]) by {
                    assert(tail[i] == msg[i + 1]);
                }
                lemma_decode_append(t, tail, rest);
                assert((p + spec_concat_codes(t, tail)) + rest =~= p + (spec_concat_codes(t, tail)
                    + rest));
                lemma_walk(*r, t, c, p, spec_concat_codes(t, tail) + rest);
                assert(spec_walk(*r, t, p + (spec_concat_codes(t, tail) + rest))
                    == spec_decode_from(*r, *r, p + (spec_concat_codes(t, tail) + rest)));
                assert(spec_encode_bits(t, tail) == spec_concat_codes(t, tail));
                assert(seq![c] + (tail + spec_decode(t, rest)) =~= msg + spec_decode(t, rest));
            }
        },
    }
}

/// Removing one entry splits its symbols off the pool's.
proof fn lemma_pool_syms_remove(p: Seq<(HuffTree, int)>, i: int)
    requires
        0 <= i < p.len(),
    ensures
        pool_syms(p) == pool_syms(p.remove(i)).union(tree_syms(p[i].0)),
    decreases p.len(),
{
    if i == p.len() - 1 {
        assert(p.remove(i) =~= p.drop_last());
        assert(p.last() == p[i]);
    } else {
        assert(p.remove(i).drop_last() =~= p.drop_last().remove(i));
        assert(p.remove(i).last() == p.last());
        lemma_pool_syms_remove(p.drop_last(), i);
        assert(p.drop_last()[i] == p[i]);
        assert(pool_syms(p.drop_last().remove(i)).union(tree_syms(p[i].0)).union(
            tree_syms(p.last().0),
        ) =~= pool_syms(p.drop_last().remove(i)).union(tree_syms(p.last().0)).union(
            tree_syms(p[i].0),
        ));
    }
}

/// One merge round neither adds nor loses a symbol.
proof fn lemma_merge_syms(p: Seq<(HuffTree, int)>)
    requires
        p.len() >= 2,
    ensures
        pool_syms(merge_step(p)) == pool_syms(p),
{
    lemma_min_idx(p);
    let i1 = min_idx(p);
    let p1 = p.remove(i1);
    lemma_min_idx(p1);
    let i2 = min_idx(p1);
    let p2 = p1.remove(i2);
    let combined = HuffTree::NonLeaf(Box::new(TreeRoot { lhs: p[i1].0, rhs: p1[i2].0 }));
    lemma_pool_syms_remove(p, i1);
    lemma_pool_syms_remove(p1, i2);
    assert(merge_step(p).drop_last() =~= p2);
    assert(merge_step(p).last() == (combined, p[i1].1 + p1[i2].1));
    assert(tree_syms(combined) =~= tree_syms(p[i1].0).union(tree_syms(p1[i2].0)));
    assert(pool_syms(p2).union(tree_syms(combined)) =~= pool_syms(p2).union(
        tree_syms(p1[i2].0),
    ).union(tree_syms(p[i1].0)));
}

/// The merged tree carries exactly the symbols of the pool it grew from.
proof fn lemma_build_syms(p: Seq<(HuffTree, int)>)
    requires
        p.len() >= 1,
    ensures
        tree_syms(spec_build(p)) == pool_syms(p),
    decreases p.len(),
{
    if p.len() == 1 {
        assert(p.drop_last() =~= Seq::<(HuffTree, int)>::empty());
        assert(p.last() == p[0]);
        assert(spec_build(p) == p[0].0);
        assert(pool_syms(p.drop_last()) == Set::<char>::empty());
        assert(pool_syms(p) == pool_syms(p.drop_last()).union(tree_syms(p.last().0)));
        assert(Set::empty().union(tree_syms(p[0].0)) =~= tree_syms(p[0].0));
    } else {
        lemma_min_idx(p);
        lemma_min_idx(p.remove(min_idx(p)));
        lemma_merge_syms(p);
        assert(merge_step(p).len() == p.len() - 1);
        lemma_build_syms(merge_step(p));
        assert(spec_build(p) == spec_build(merge_step(p)));
    }
}

/// Membership in a pool's symbols is membership in some entry's symbols.
proof fn lemma_pool_syms_member(p: Seq<(HuffTree, int)>, c: char)
    ensures
        pool_syms(p).contains(c) <==> exists|i: int|
            0 <= i < p.len() && tree_syms((#[trigger] p[i]).0).contains(c),
    decreases p.len(),
{
    if p.len() > 0 {
        lemma_pool_syms_member(p.drop_last(), c);
        assert(p.last() == p[p.len() - 1]);
        if pool_syms(p.drop_last()).contains(c) {
            let i = choose|i: int|
                0 <= i < p.drop_last().len() && tree_syms((#[trigger] p.drop_last()[i]).0).contains(
                    c,
                );
            assert(p[i] == p.drop_last()[i]);
            assert(tree_syms(p[i].0).contains(c));
        }
        if exists|i: int| 0 <= i < p.len() && tree_syms((#[trigger] p[i]).0).contains(c) {
            let i = choose|i: int|
                0 <= i < p.len() && tree_syms((#[trigger] p[i]).0).contains(c);
            if i < p.len() - 1 {
                assert(p.drop_last()[i] == p[i]);
                assert(pool_syms(p.drop_last()).contains(c));
            }
        }
    }
}

/// The tree built from a non-empty message has exactly the message's
/// symbols on its leaves.
pub proof fn lemma_tree_covers(msg: Seq<char>)
    requires
        msg.len() > 0,
    ensures
        forall|c: char| #[trigger]
            tree_syms(spec_huff_tree(msg)).contains(c) <==> msg.contains(c),
{
    lemma_distinct_contains(msg, msg[0]);
    assert(msg.contains(msg[0]));
    assert(distinct_syms(msg).contains(msg[0]));
    assert(distinct_syms(msg).len() >= 1);
    lemma_leaf_pool_index(distinct_syms(msg), msg);
    lemma_build_syms(init_pool(msg));
    assert forall|c: char| #[trigger]
        tree_syms(spec_huff_tree(msg)).contains(c) <==> msg.contains(c) by {
        lemma_pool_syms_member(init_pool(msg), c);
        lemma_distinct_contains(msg, c);
        if msg.contains(c) {
            let k = choose|k: int|
                0 <= k < distinct_syms(msg).len() && distinct_syms(msg)[k] == c;
            assert(init_pool(msg)[k].0 == HuffTree::Leaf(c));
            assert(tree_syms(init_pool(msg)[k].0).contains(c));
        }
        if tree_syms(spec_huff_tree(msg)).contains(c) {
            let i = choose|i: int|
                0 <= i < init_pool(msg).len() && tree_syms(
                    (#[trigger] init_pool(msg)[i]).0,
                ).contains(c);
            assert(init_pool(msg)[i].0 == HuffTree::Leaf(distinct_syms(msg)[i]));
            assert(distinct_syms(msg)[i] == c);
            assert(distinct_syms(msg).contains(c));
        }
    }
}

/// Round trip: encoding any non-empty message against the tree built from
/// it succeeds, and decoding the result gives the message back.
pub proof fn lemma_round_trip(msg: Seq<char>)
    requires
        msg.len() > 0,
    ensures
        spec_encode_ok(spec_huff_tree(msg), msg),
        spec_decode(spec_huff_tree(msg), spec_encode_bits(spec_huff_tree(msg), msg)) == msg,
{
    let t = spec_huff_tree(msg);
    lemma_tree_covers(msg);
    lemma_branches_dom(t);
    assert forall|i: int| 0 <= i < msg.len() implies spec_branches(t).dom().contains(
        #[trigger] msg[i],
    ) by {
        assert(msg.contains(msg[i]));
    }
    lemma_decode_append(t, msg, Seq::empty());
    assert(spec_encode_bits(t, msg) + Seq::<bool>::empty() =~= spec_encode_bits(t, msg));
    assert(spec_decode(t, Seq::empty()) =~= Seq::<char>::empty());
    assert(msg + Seq::<char>::empty() =~= msg);
}

/// Truncation: bits that follow a fully encoded message but decode to no
/// symbol of their own are dropped silently; the message still comes back
/// whole, with nothing extra.
pub proof fn lemma_truncation(t: HuffTree, msg: Seq<char>, tail: Seq<bool>)
    requires
        spec_encode_ok(t, msg),
        spec_decode(t, tail) == Seq::<char>::empty(),
    ensures
        spec_decode(t, spec_encode_bits(t, msg) + tail) == msg,
{
    lemma_decode_append(t, msg, tail);
    assert(msg + Seq::<char>::empty() =~= msg);
}

/// A step of a shared first bit keeps one code a prefix of another.
proof fn lemma_prefix_shift(p: Seq<bool>, q: Seq<bool>, b: bool)
    requires
        is_prefix_of(seq![b] + p, seq![b] + q),
    ensures
        is_prefix_of(p, q),
{
    let bp = seq![b] + p;
    let bq = seq![b] + q;
    assert(p.len() <= q.len());
    assert forall|i: int| 0 <= i < p.len() implies p[i] == q.take(p.len() as int)[i] by {
        assert(bp[i + 1] == p[i]);
        assert(bq.take(bp.len() as int)[i + 1] == bq[i + 1]);
        assert(bq[i + 1] == q[i]);
    }
    assert(p =~= q.take(p.len() as int));
}

/// Prefix-free: of two distinct symbols in a tree's code table, neither
/// one's code is a prefix of the other's.
pub proof fn lemma_prefix_free(t: HuffTree, a: char, b: char)
    requires
        a != b,
        spec_branches(t).dom().contains(a),
        spec_branches(t).dom().contains(b),
    ensures
        !is_prefix_of(spec_branches(t)[a], spec_branches(t)[b]),
    decreases t,
{
    match t {
        HuffTree::Leaf(c) => {
            assert(a == c && b == c);
        },
        HuffTree::NonLeaf(r) => {
            let lb = spec_branches(r.lhs);
            let rb = spec_branches(r.rhs);
            let pa = spec_branches(t)[a];
            let pb = spec_branches(t)[b];
            let ina = prefixed(rb, seq![false]).dom().contains(a);
            let inb = prefixed(rb, seq![false]).dom().contains(b);
            if ina {
                lemma_prefixed_value(rb, seq![false], a);
            } else {
                lemma_prefixed_value(lb, seq![true], a);
            }
            if inb {
                lemma_prefixed_value(rb, seq![false], b);
            } else {
                lemma_prefixed_value(lb, seq![true], b);
            }
            if ina != inb {
                assert(pa.len() > 0 && pb.len() > 0);
                if is_prefix_of(pa, pb) {
                    assert(pb.take(pa.len() as int)[0] == pb[0]);
                    assert(pa[0] != pb[0]);
                    assert(false);
                }
            } else {
                if ina {
                    lemma_prefix_free(r.rhs, a, b);
                    if is_prefix_of(pa, pb) {
                        lemma_prefix_shift(rb[a], rb[b], false);
                        assert(false);
                    }
                } else {
                    lemma_prefix_free(r.lhs, a, b);
                    if is_prefix_of(pa, pb) {
                        lemma_prefix_shift(lb[a], lb[b], true);
                        assert(false);
                    }
                }
            }
        },
    }
}

/// A message of one repeated symbol has that symbol alone as its distinct
/// symbols.
proof fn lemma_distinct_single(msg: Seq<char>, c: char)
    requires
        msg.len() > 0,
        forall|i: int| 0 <= i < msg.len() ==> msg[i] == c,
    ensures
        distinct_syms(msg) == seq![c],
    decreases msg.len(),
{
    if msg.len() == 1 {
        assert(distinct_syms(msg.drop_last()) =~= Seq::<char>::empty());
        assert(distinct_syms(msg) =~= seq![c]);
    } else {
        lemma_distinct_single(msg.drop_last(), c);
        assert(msg.last() == c);
        assert(seq![c].contains(c)) by {
            assert(seq![c][0] == c);
        }
    }
}

/// A single-symbol message reduces the tree to a bare leaf: encoding makes
/// one bit per occurrence, and decoding any bits against a bare leaf gives
/// one occurrence per bit.
pub proof fn lemma_single_symbol(msg: Seq<char>, c: char)
    requires
        msg.len() > 0,
        forall|i: int| 0 <= i < msg.len() ==> msg[i] == c,
    ensures
        spec_huff_tree(msg) == HuffTree::Leaf(c),
        spec_encode_ok(spec_huff_tree(msg), msg),
        spec_encode_bits(spec_huff_tree(msg), msg).len() == msg.len(),
        forall|bs: Seq<bool>| #[trigger]
            spec_decode(HuffTree::Leaf(c), bs) == Seq::new(bs.len(), |k: int| c),
{
    lemma_distinct_single(msg, c);
    lemma_leaf_pool_index(distinct_syms(msg), msg);
    assert(init_pool(msg).len() == 1);
    assert(init_pool(msg)[0].0 == HuffTree::Leaf(c));
    assert(spec_build(init_pool(msg)) == HuffTree::Leaf(c));
    assert forall|i: int| 0 <= i < msg.len() implies spec_branches(
        spec_huff_tree(msg),
    ).dom().contains(#[trigger] msg[i]) by {
        assert(msg[i] == c);
    }
}

/// The tree's shape is a function of the message alone: two builds from
/// the same message give the same tree, and so in particular the same
/// code table and the same multiset of (symbol, code length) pairs.
pub proof fn lemma_tree_idempotent(m1: Seq<char>, m2: Seq<char>)
    requires
        m1 == m2,
    ensures
        spec_huff_tree(m1) == spec_huff_tree(m2),
        spec_branches(spec_huff_tree(m1)) == spec_branches(spec_huff_tree(m2)),
{
}

/// An empty message gets the fixed fallback tree, and encodes to no bits
/// against any tree.
pub proof fn lemma_empty_message(t: HuffTree)
    ensures
        spec_huff_tree(Seq::<char>::empty()) == crate::builder::fallback_tree(),
        spec_encode_ok(t, Seq::<char>::empty()),
        spec_encode_bits(t, Seq::<char>::empty()) == Seq::<bool>::empty(),
{
    match t {
        HuffTree::Leaf(c) => {
            assert(spec_encode_bits(t, Seq::<char>::empty()) =~= Seq::<bool>::empty());
        },
        HuffTree::NonLeaf(_) => {
        },
    }
}

} // verus!
