//! Frequency counting and tree construction: the working pool of weighted
//! subtrees, the repeated merge of the two lightest entries, and the proof
//! that the executable builder computes exactly the modelled tree.
use vstd::prelude::*;
use vstd::string::StrSliceExecFns;

use crate::tree::HuffTree;
use crate::tree::TreeRoot;

verus! {

/// Number of occurrences of `c` in `msg`.
pub open spec fn count_of(msg: Seq<char>, c: char) -> nat
    decreases msg.len(),
{
    if msg.len() == 0 {
        0
    } else {
        count_of(msg.drop_last(), c) + if msg.last() == c {
            1nat
        } else {
            0nat
        }
    }
}

/// The distinct symbols of `msg`, in order of first occurrence.
pub open spec fn distinct_syms(msg: Seq<char>) -> Seq<char>
    decreases msg.len(),
{
    if msg.len() == 0 {
        Seq::empty()
    } else {
        let prev = distinct_syms(msg.drop_last());
        if prev.contains(msg.last()) {
            prev
        } else {
            prev.push(msg.last())
        }
    }
}

/// A sequence with one more element at its end.
pub open spec fn seq_app<T>(s: Seq<T>, x: T) -> Seq<T> {
    s.push(x)
}

/// A sequence with the element at `i` taken out.
pub open spec fn seq_rm<T>(s: Seq<T>, i: int) -> Seq<T> {
    s.remove(i)
}

/// One weighted entry per listed symbol: the symbol's image under `leaf`,
/// weighted by the symbol's count in the message.
pub open spec fn leaf_pool_g<T>(syms: Seq<char>, msg: Seq<char>, leaf: spec_fn(char) -> T) -> Seq<
    (T, int),
>
    decreases syms.len(),
{
    if syms.len() == 0 {
        Seq::empty()
    } else {
        leaf_pool_g(syms.drop_last(), msg, leaf).push(
            (leaf(syms.last()), count_of(msg, syms.last()) as int),
        )
    }
}

/// The leaf for one symbol.
pub open spec fn leaf_of(c: char) -> HuffTree {
    HuffTree::Leaf(c)
}

/// One weighted leaf per listed symbol, its weight the symbol's count.
pub open spec fn leaf_pool(syms: Seq<char>, msg: Seq<char>) -> Seq<(HuffTree, int)> {
    leaf_pool_g(syms, msg, |c: char| leaf_of(c))
}

/// The pool the builder starts from.
pub open spec fn init_pool(msg: Seq<char>) -> Seq<(HuffTree, int)> {
    leaf_pool(distinct_syms(msg), msg)
}

/// Machine-sized weights widened to mathematical integers.
pub open spec fn pool_cast<T>(s: Seq<(T, usize)>) -> Seq<(T, int)>
    decreases s.len(),
{
    if s.len() == 0 {
        Seq::empty()
    } else {
        pool_cast(s.drop_last()).push((s.last().0, s.last().1 as int))
    }
}

/// The weighted-subtree view of the builder's working vector.
pub open spec fn pool_of(s: Seq<(HuffTree, usize)>) -> Seq<(HuffTree, int)> {
    pool_cast(s)
}

/// The leaf pool holds one weighted leaf per listed symbol, in order.
pub proof fn lemma_leaf_pool_index(syms: Seq<char>, msg: Seq<char>)
    ensures
        leaf_pool(syms, msg).len() == syms.len(),
        forall|i: int|
            0 <= i < syms.len() ==> #[trigger] leaf_pool(syms, msg)[i] == (
            HuffTree::Leaf(syms[i]),
            count_of(msg, syms[i]) as int,
            ),
    decreases syms.len(),
{
    if syms.len() > 0 {
        lemma_leaf_pool_index(syms.drop_last(), msg);
        assert forall|i: int|
            0 <= i < syms.len() implies #[trigger] leaf_pool(syms, msg)[i] == (
            HuffTree::Leaf(syms[i]),
            count_of(msg, syms[i]) as int,
            ) by {
            if i < syms.len() - 1 {
                assert(syms.drop_last()[i] == syms[i]);
                assert(leaf_pool(syms, msg)[i] == leaf_pool(syms.drop_last(), msg)[i]);
            }
        }
    }
}

/// The pool view keeps length, trees and weights of the working vector.
proof fn lemma_pool_of(s: Seq<(HuffTree, usize)>)
    ensures
        pool_of(s).len() == s.len(),
        forall|i: int|
            0 <= i < s.len() ==> #[trigger] pool_of(s)[i] == (s[i].0, s[i].1 as int),
    decreases s.len(),
{
    if s.len() > 0 {
        lemma_pool_of(s.drop_last());
        assert forall|i: int|
            0 <= i < s.len() implies #[trigger] pool_of(s)[i] == (s[i].0, s[i].1 as int) by {
            if i < s.len() - 1 {
                assert(s.drop_last()[i] == s[i]);
                assert(pool_of(s)[i] == pool_of(s.drop_last())[i]);
            }
        }
    }
}

/// The first index of a minimal weight in the pool.
pub open spec fn min_idx(p: Seq<(HuffTree, int)>) -> int
    decreases p.len(),
{
    if p.len() <= 1 {
        0
    } else {
        let m = min_idx(p.drop_last());
        if p.last().1 < p[m].1 {
            p.len() - 1
        } else {
            m
        }
    }
}

/// Total weight of the pool.
pub open spec fn pool_weight(p: Seq<(HuffTree, int)>) -> int
    decreases p.len(),
{
    if p.len() == 0 {
        0
    } else {
        pool_weight(p.drop_last()) + p.last().1
    }
}

/// One merge round: remove the two lightest entries (the earliest on ties),
/// and append an internal node over them, the first removed on the left,
/// with the summed weight.
pub open spec fn merge_step(p: Seq<(HuffTree, int)>) -> Seq<(HuffTree, int)> {
    let i1 = min_idx(p);
    let p1 = seq_rm(p, i1);
    let i2 = min_idx(p1);
    let p2 = seq_rm(p1, i2);
    let combined = HuffTree::NonLeaf(Box::new(TreeRoot { lhs: p[i1].0, rhs: p1[i2].0 }));
    seq_app(p2, (combined, p[i1].1 + p1[i2].1))
}

/// Merging until a single tree remains.
pub open spec fn spec_build(p: Seq<(HuffTree, int)>) -> HuffTree
    decreases p.len(),
    when p.len() >= 1
    via spec_build_decreases
{
    if p.len() == 1 {
        p[0].0
    } else {
        spec_build(merge_step(p))
    }
}

#[via_fn]
proof fn spec_build_decreases(p: Seq<(HuffTree, int)>) {
    if p.len() > 1 {
        lemma_min_idx(p);
        lemma_min_idx(seq_rm(p, min_idx(p)));
    }
}

/// The fallback tree returned for an empty message.
pub open spec fn fallback_tree() -> HuffTree {
    HuffTree::NonLeaf(Box::new(TreeRoot { lhs: HuffTree::Leaf('a'), rhs: HuffTree::Leaf('b') }))
}

/// The tree the builder returns for a message.
pub open spec fn spec_huff_tree(msg: Seq<char>) -> HuffTree {
    if distinct_syms(msg).len() == 0 {
        fallback_tree()
    } else {
        spec_build(init_pool(msg))
    }
}

pub proof fn lemma_min_idx(p: Seq<(HuffTree, int)>)
    requires
        p.len() >= 1,
    ensures
        0 <= min_idx(p) < p.len(),
        forall|j: int| 0 <= j < p.len() ==> p[min_idx(p)].1 <= #[trigger] p[j].1,
    decreases p.len(),
{
    if p.len() > 1 {
        lemma_min_idx(p.drop_last());
        let m = min_idx(p.drop_last());
        assert(p.drop_last()[m] == p[m]);
        assert forall|j: int| 0 <= j < p.len() implies p[min_idx(p)].1 <= #[trigger] p[j].1 by {
            if j < p.len() - 1 {
                assert(p.drop_last()[j] == p[j]);
            }
        }
    }
}

/// Appending one character bumps its count by one and leaves the others
/// alone; it adds a new distinct symbol only when unseen so far.
proof fn lemma_push_effects(s: Seq<char>, c: char)
    ensures
        distinct_syms(s.push(c)) == if distinct_syms(s).contains(c) {
            distinct_syms(s)
        } else {
            distinct_syms(s).push(c)
        },
        forall|d: char|
            #[trigger] count_of(s.push(c), d) == count_of(s, d) + if d == c {
                1nat
            } else {
                0nat
            },
{
    assert(s.push(c).drop_last() =~= s);
    assert(s.push(c).last() == c);
}

/// A symbol is distinct exactly when it occurs, i.e. when its count is
/// positive.
pub proof fn lemma_distinct_contains(msg: Seq<char>, d: char)
    ensures
        distinct_syms(msg).contains(d) <==> count_of(msg, d) > 0,
        distinct_syms(msg).contains(d) <==> msg.contains(d),
    decreases msg.len(),
{
    if msg.len() > 0 {
        lemma_distinct_contains(msg.drop_last(), d);
        let prev = distinct_syms(msg.drop_last());
        if msg.last() == d {
            if prev.contains(d) {
                assert(distinct_syms(msg).contains(d));
            } else {
                assert(distinct_syms(msg)[distinct_syms(msg).len() - 1] == d);
                assert(distinct_syms(msg).contains(d));
            }
            assert(msg[msg.len() - 1] == d);
            assert(msg.contains(d));
        } else {
            if prev.contains(d) {
                let k = choose|k: int| 0 <= k < prev.len() && prev[k] == d;
                if !prev.contains(msg.last()) {
                    assert(distinct_syms(msg)[k] == d);
                }
                assert(distinct_syms(msg).contains(d));
            } else {
                if distinct_syms(msg).contains(d) {
                    let k = choose|k: int|
                        0 <= k < distinct_syms(msg).len() && distinct_syms(msg)[k] == d;
                    if !prev.contains(msg.last()) {
                        assert(k < prev.len() + 1);
                        assert(k != prev.len());
                        assert(prev[k] == d);
                    }
                    assert(false);
                }
            }
            if msg.contains(d) {
                let k = choose|k: int| 0 <= k < msg.len() && msg[k] == d;
                assert(msg.drop_last()[k] == d);
                assert(msg.drop_last().contains(d));
            }
            if msg.drop_last().contains(d) {
                let k = choose|k: int| 0 <= k < msg.len() - 1 && msg.drop_last()[k] == d;
                assert(msg[k] == d);
                assert(msg.contains(d));
            }
        }
    }
}

/// The distinct symbols hold each of their members exactly once.
proof fn lemma_distinct_count(msg: Seq<char>, d: char)
    ensures
        count_of(distinct_syms(msg), d) == if distinct_syms(msg).contains(d) {
            1nat
        } else {
            0nat
        },
    decreases msg.len(),
{
    if msg.len() == 0 {
        assert(!distinct_syms(msg).contains(d));
    } else {
        lemma_distinct_count(msg.drop_last(), d);
        let prev = distinct_syms(msg.drop_last());
        let c = msg.last();
        if prev.contains(c) {
            assert(distinct_syms(msg) == prev);
        } else {
            assert(distinct_syms(msg) == prev.push(c));
            lemma_push_effects_chars(prev, c, d);
            if d == c {
                assert(distinct_syms(msg)[prev.len() as int] == d);
                assert(distinct_syms(msg).contains(d));
            } else {
                if prev.push(c).contains(d) {
                    let k = choose|k: int| 0 <= k < prev.push(c).len() && prev.push(c)[k] == d;
                    assert(k != prev.len());
                    assert(prev[k] == d);
                    assert(prev.contains(d));
                }
                if prev.contains(d) {
                    let k = choose|k: int| 0 <= k < prev.len() && prev[k] == d;
                    assert(prev.push(c)[k] == d);
                    assert(prev.push(c).contains(d));
                }
            }
        }
    }
}

/// `count_of` over a push, for an arbitrary character sequence.
proof fn lemma_push_effects_chars(s: Seq<char>, c: char, d: char)
    ensures
        count_of(s.push(c), d) == count_of(s, d) + if d == c {
            1nat
        } else {
            0nat
        },
{
    assert(s.push(c).drop_last() =~= s);
}

/// Extending the message by one character raises the leaf pool's total
/// weight by that character's multiplicity among the listed symbols.
proof fn lemma_leaf_pool_weight_push(syms: Seq<char>, msg: Seq<char>, c: char)
    ensures
        pool_weight(leaf_pool(syms, msg.push(c))) == pool_weight(leaf_pool(syms, msg)) + count_of(
            syms,
            c,
        ),
    decreases syms.len(),
{
    if syms.len() == 0 {
        assert(leaf_pool(syms, msg.push(c)) =~= Seq::<(HuffTree, int)>::empty());
        assert(leaf_pool(syms, msg) =~= Seq::<(HuffTree, int)>::empty());
    } else {
        lemma_leaf_pool_weight_push(syms.drop_last(), msg, c);
        lemma_push_effects_chars(msg, c, syms.last());
        let a = leaf_pool(syms, msg.push(c));
        let b = leaf_pool(syms, msg);
        assert(a.drop_last() =~= leaf_pool(syms.drop_last(), msg.push(c)));
        assert(b.drop_last() =~= leaf_pool(syms.drop_last(), msg));
        assert(pool_weight(a) == pool_weight(a.drop_last()) + a.last().1);
        assert(pool_weight(b) == pool_weight(b.drop_last()) + b.last().1);
        assert(a.last().1 == count_of(msg.push(c), syms.last()));
        assert(count_of(syms, c) == count_of(syms.drop_last(), c) + if syms.last() == c {
            1nat
        } else {
            0nat
        });
    }
}

/// The initial pool's total weight is the message's length.
proof fn lemma_pool_weight_init(msg: Seq<char>)
    ensures
        pool_weight(init_pool(msg)) == msg.len(),
    decreases msg.len(),
{
    if msg.len() > 0 {
        let pre = msg.drop_last();
        let c = msg.last();
        lemma_pool_weight_init(pre);
        assert(pre.push(c) =~= msg);
        lemma_leaf_pool_weight_push(distinct_syms(pre), pre, c);
        assert(pool_weight(leaf_pool(distinct_syms(pre), msg)) == pool_weight(
            leaf_pool(distinct_syms(pre), pre),
        ) + count_of(distinct_syms(pre), c));
        lemma_distinct_count(pre, c);
        lemma_distinct_contains(pre, c);
        lemma_push_effects_chars(pre, c, c);
        if distinct_syms(pre).contains(c) {
            assert(distinct_syms(msg) == distinct_syms(pre));
            assert(count_of(distinct_syms(pre), c) == 1);
        } else {
            assert(count_of(distinct_syms(pre), c) == 0);
            assert(distinct_syms(msg) == distinct_syms(pre).push(c));
            assert(distinct_syms(msg).drop_last() =~= distinct_syms(pre));
            assert(distinct_syms(msg).last() == c);
            let a = leaf_pool(distinct_syms(msg), msg);
            assert(a.drop_last() =~= leaf_pool(distinct_syms(pre), msg));
            assert(pool_weight(a) == pool_weight(a.drop_last()) + a.last().1);
            assert(a.last().1 == count_of(msg, c));
            assert(count_of(pre, c) == 0);
            assert(count_of(msg, c) == 1);
        }
    }
}

/// Removing an entry takes exactly its weight out of the total.
proof fn lemma_pool_weight_remove(p: Seq<(HuffTree, int)>, i: int)
    requires
        0 <= i < p.len(),
    ensures
        pool_weight(p.remove(i)) == pool_weight(p) - p[i].1,
    decreases p.len(),
{
    if i == p.len() - 1 {
        assert(p.remove(i) =~= p.drop_last());
    } else {
        assert(p.remove(i).drop_last() =~= p.drop_last().remove(i));
        assert(p.remove(i).last() == p.last());
        lemma_pool_weight_remove(p.drop_last(), i);
    }
}

/// A pool of non-negative weights has a non-negative total.
proof fn lemma_pool_weight_nonneg(p: Seq<(HuffTree, int)>)
    requires
        forall|j: int| 0 <= j < p.len() ==> (#[trigger] p[j]).1 >= 0,
    ensures
        pool_weight(p) >= 0,
    decreases p.len(),
{
    if p.len() > 0 {
        assert forall|j: int| 0 <= j < p.drop_last().len() implies (#[trigger] p.drop_last()[j]).1
            >= 0 by {
            assert(p.drop_last()[j] == p[j]);
        }
        lemma_pool_weight_nonneg(p.drop_last());
    }
}

/// Appending the next symbol's weighted leaf keeps the pool aligned with
/// the message's distinct symbols and counts.
proof fn lemma_push_pool_inv(
    tv: Seq<(HuffTree, usize)>,
    nv: Seq<(HuffTree, usize)>,
    c: char,
    w: usize,
    msg: Seq<char>,
    k: int,
)
    requires
        k == tv.len(),
        nv == tv.push((HuffTree::Leaf(c), w)),
        0 <= k < distinct_syms(msg).len(),
        c == distinct_syms(msg)[k],
        w as nat == count_of(msg, distinct_syms(msg)[k]),
        forall|j: int|
            0 <= j < k ==> (#[trigger] tv[j]).0 == HuffTree::Leaf(distinct_syms(msg)[j])
                && tv[j].1 as nat == count_of(msg, distinct_syms(msg)[j]),
    ensures
        nv.len() == k + 1,
        forall|j: int|
            0 <= j < k + 1 ==> (#[trigger] nv[j]).0 == HuffTree::Leaf(distinct_syms(msg)[j])
                && nv[j].1 as nat == count_of(msg, distinct_syms(msg)[j]),
{
    assert forall|j: int|
        0 <= j < k + 1 implies (#[trigger] nv[j]).0 == HuffTree::Leaf(distinct_syms(msg)[j])
            && nv[j].1 as nat == count_of(msg, distinct_syms(msg)[j]) by {
        if j < k {
            assert(nv[j] == tv[j]);
        } else {
            assert(nv[j] == (HuffTree::Leaf(c), w));
        }
    }
}

/// Does the vector hold this character?
fn contains_char(v: &Vec<char>, c: char) -> (r: bool)
    ensures
        r == v@.contains(c),
{
    let mut i: usize = 0;
    while i < v.len()
        invariant
            i <= v@.len(),
            forall|j: int| 0 <= j < i ==> v@[j] != c,
        decreases v@.len() - i,
    {
        if v[i] == c {
            proof {
                assert(v@[i as int] == c);
            }
            return true;
        }
        i += 1;
    }
    false
}

/// How often `c` occurs in the message.
fn count_occurrences(message: &String, c: char) -> (r: usize)
    ensures
        r as nat == count_of(message@, c),
{
    let s = message.as_str();
    let n = s.unicode_len();
    let mut cnt: usize = 0;
    let mut i: usize = 0;
    while i < n
        invariant
            n == message@.len(),
            s@ == message@,
            i <= n,
            cnt as nat == count_of(message@.take(i as int), c),
            cnt <= i,
        decreases n - i,
    {
        let ch = s.get_char(i);
        proof {
            assert(message@.take(i as int).push(message@[i as int]) =~= message@.take(
                i as int + 1,
            ));
            lemma_push_effects_chars(message@.take(i as int), message@[i as int], c);
        }
        if ch == c {
            cnt += 1;
        }
        i += 1;
    }
    proof {
        assert(message@.take(n as int) =~= message@);
    }
    cnt
}

/// The character frequencies of the message: one entry per distinct symbol,
/// in order of first occurrence, paired with its number of occurrences.
pub fn frequencies(message: &String) -> (r: Vec<(char, usize)>)
    ensures
        r@.len() == distinct_syms(message@).len(),
        forall|k: int|
            0 <= k < r@.len() ==> (#[trigger] r@[k]).0 == distinct_syms(message@)[k] && r@[k].1
                as nat == count_of(message@, distinct_syms(message@)[k]),
        message@.len() <= usize::MAX,
{
    let s = message.as_str();
    let n = s.unicode_len();
    let mut syms: Vec<char> = Vec::new();
    let mut i: usize = 0;
    while i < n
        invariant
            n == message@.len(),
            s@ == message@,
            i <= n,
            syms@ == distinct_syms(message@.take(i as int)),
        decreases n - i,
    {
        let c = s.get_char(i);
        proof {
            assert(message@.take(i as int).push(message@[i as int]) =~= message@.take(
                i as int + 1,
            ));
            lemma_push_effects(message@.take(i as int), c);
        }
        if !contains_char(&syms, c) {
            syms.push(c);
        }
        i += 1;
    }
    proof {
        assert(message@.take(n as int) =~= message@);
    }
    let mut r: Vec<(char, usize)> = Vec::new();
    let mut k: usize = 0;
    while k < syms.len()
        invariant
            syms@ == distinct_syms(message@),
            message@.len() <= usize::MAX,
            k <= syms@.len(),
            r@.len() == k,
            forall|j: int|
                0 <= j < k ==> (#[trigger] r@[j]).0 == syms@[j] && r@[j].1 as nat == count_of(
                    message@,
                    syms@[j],
                ),
        decreases syms@.len() - k,
    {
        let c = syms[k];
        let cnt = count_occurrences(message, c);
        r.push((c, cnt));
        k += 1;
    }
    r
}

/// The index of the first minimal weight in the working vector.
fn find_min(trees: &Vec<(HuffTree, usize)>) -> (r: usize)
    requires
        trees@.len() >= 1,
    ensures
        r as int == min_idx(pool_of(trees@)),
        (r as int) < trees@.len(),
{
    let ghost p = pool_of(trees@);
    proof {
        lemma_pool_of(trees@);
    }
    let mut best: usize = 0;
    let mut j: usize = 1;
    while j < trees.len()
        invariant
            p == pool_of(trees@),
            p.len() == trees@.len(),
            forall|i: int| 0 <= i < trees@.len() ==> #[trigger] p[i] == (trees@[i].0, trees@[i].1 as int),
            1 <= j <= trees@.len(),
            best < j,
            best as int == min_idx(p.take(j as int)),
        decreases trees@.len() - j,
    {
        proof {
            assert(p.take(j as int + 1).drop_last() =~= p.take(j as int));
            assert(p.take(j as int + 1).last() == p[j as int]);
            lemma_min_idx(p.take(j as int));
            assert(p.take(j as int)[best as int] == p[best as int]);
        }
        if trees[j].1 < trees[best].1 {
            best = j;
        }
        j += 1;
    }
    proof {
        assert(p.take(trees@.len() as int) =~= p);
        lemma_min_idx(p);
    }
    best
}

/// Builds the Huffman tree for the message: one weighted leaf per distinct
/// symbol, then repeated merges of the two lightest subtrees. An empty
/// message gets the fixed fallback tree; a single distinct symbol reduces
/// to a bare leaf.
pub fn huff_tree(message: &String) -> (r: HuffTree)
    ensures
        r == spec_huff_tree(message@),
{
    let ghost msg = message@;
    let freqs = frequencies(message);
    let mut trees: Vec<(HuffTree, usize)> = Vec::new();
    let mut k: usize = 0;
    while k < freqs.len()
        invariant
            freqs@.len() == distinct_syms(msg).len(),
            forall|j: int|
                0 <= j < freqs@.len() ==> (#[trigger] freqs@[j]).0 == distinct_syms(msg)[j]
                    && freqs@[j].1 as nat == count_of(msg, distinct_syms(msg)[j]),
            k <= freqs@.len(),
            trees@.len() == k,
            forall|j: int|
                0 <= j < k ==> (#[trigger] trees@[j]).0 == HuffTree::Leaf(distinct_syms(msg)[j])
                    && trees@[j].1 as nat == count_of(msg, distinct_syms(msg)[j]),
        decreases freqs@.len() - k,
    {
        let p = freqs[k];
        let ghost tv = trees@;
        trees.push((HuffTree::Leaf(p.0), p.1));
        proof {
            lemma_push_pool_inv(tv, trees@, p.0, p.1, msg, k as int);
        }
        k += 1;
    }
    if trees.len() == 0 {
        return HuffTree::NonLeaf(
            Box::new(TreeRoot { lhs: HuffTree::Leaf('a'), rhs: HuffTree::Leaf('b') }),
        );
    }
    proof {
        lemma_pool_of(trees@);
        lemma_leaf_pool_index(distinct_syms(msg), msg);
        assert(pool_of(trees@) =~= init_pool(msg));
        lemma_pool_weight_init(msg);
    }
    while trees.len() > 1
        invariant
            msg.len() <= usize::MAX,
            trees@.len() >= 1,
            distinct_syms(msg).len() >= 1,
            pool_weight(pool_of(trees@)) == msg.len(),
            spec_build(pool_of(trees@)) == spec_build(init_pool(msg)),
        decreases trees@.len(),
    {
        let ghost tv0 = trees@;
        let ghost p0 = pool_of(trees@);
        proof {
            lemma_pool_of(tv0);
            lemma_min_idx(p0);
        }
        let i1 = find_min(&trees);
        let t1 = trees.remove(i1);
        let ghost tv1 = trees@;
        let ghost p1 = pool_of(trees@);
        proof {
            lemma_pool_of(tv1);
            assert(p1 =~= p0.remove(i1 as int));
            lemma_pool_weight_remove(p0, i1 as int);
            lemma_min_idx(p1);
        }
        let i2 = find_min(&trees);
        let t2 = trees.remove(i2);
        let ghost tv2 = trees@;
        let ghost p2 = pool_of(trees@);
        proof {
            lemma_pool_of(tv2);
            assert(p2 =~= p1.remove(i2 as int));
            lemma_pool_weight_remove(p1, i2 as int);
            assert(forall|j: int| 0 <= j < p2.len() ==> (#[trigger] p2[j]).1 >= 0);
            lemma_pool_weight_nonneg(p2);
            assert(t1.1 + t2.1 <= msg.len());
        }
        let w = t1.1 + t2.1;
        trees.push((HuffTree::NonLeaf(Box::new(TreeRoot { lhs: t1.0, rhs: t2.0 })), w));
        proof {
            lemma_pool_of(trees@);
            assert(trees@ == tv2.push((HuffTree::NonLeaf(Box::new(TreeRoot { lhs: t1.0, rhs: t2.0 })), w)));
            assert(pool_of(trees@) =~= merge_step(p0));
            let pn = pool_of(trees@);
            assert(pn.drop_last() =~= p2);
            assert(pool_weight(pn) == pool_weight(pn.drop_last()) + pn.last().1);
            assert(pn.last().1 == w as int);
            assert(spec_build(p0) == spec_build(merge_step(p0)));
        }
    }
    proof {
        lemma_pool_of(trees@);
        let p = pool_of(trees@);
        assert(spec_build(p) == p[0].0);
        assert(p[0].0 == trees@[0].0);
    }
    let t = trees.remove(0);
    t.0
}

} // verus!
