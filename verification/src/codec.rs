//! The encoder and decoder: a message to a bit sequence through the code
//! table, and a bit sequence back to the message by walking the tree.
use vstd::prelude::*;
use vstd::string::StrSliceExecFns;

use crate::bits::bit_seq;
use crate::bits::bitvec_capacity;
use crate::bits::bv_from_bools;
use crate::bits::bv_get;
use crate::bits::bv_len;
use crate::bits::BitSeq;
use crate::table::branches;
use crate::table::table_map;
use crate::tree::spec_branches;
use crate::tree::spec_concat_codes;
use crate::tree::spec_decode;
use crate::tree::spec_decode_from;
use crate::tree::spec_encode_bits;
use crate::tree::spec_encode_ok;
use crate::tree::HuffError;
use crate::tree::HuffTree;
use crate::tree::TreeRoot;

verus! {

/// Relies on std's `String::push`: appends one character.
#[verifier::external_body]
fn push_char(s: &mut String, c: char)
    ensures
        final(s)@ == old(s)@.push(c),
{
    s.push(c);
}

/// The latest entry for a symbol decides its code; one step of the
/// backwards search.
proof fn lemma_table_lookup_found(s: Seq<(char, Vec<bool>)>, c: char, k: int)
    requires
        0 <= k < s.len(),
        s[k].0 == c,
        forall|j: int| k < j < s.len() ==> (#[trigger] s[j]).0 != c,
    ensures
        table_map(s).dom().contains(c),
        table_map(s)[c] == s[k].1@,
    decreases s.len(),
{
    if k == s.len() - 1 {
        assert(s.last() == s[k]);
    } else {
        assert(s.last() == s[s.len() - 1]);
        assert(s.last().0 != c);
        assert forall|j: int| k < j < s.drop_last().len() implies (#[trigger] s.drop_last()[j]).0
            != c by {
            assert(s.drop_last()[j] == s[j]);
        }
        assert(s.drop_last()[k] == s[k]);
        lemma_table_lookup_found(s.drop_last(), c, k);
    }
}

/// A symbol no entry names is not in the table.
proof fn lemma_table_lookup_none(s: Seq<(char, Vec<bool>)>, c: char)
    requires
        forall|j: int| 0 <= j < s.len() ==> (#[trigger] s[j]).0 != c,
    ensures
        !table_map(s).dom().contains(c),
    decreases s.len(),
{
    if s.len() > 0 {
        assert(s.last() == s[s.len() - 1]);
        assert forall|j: int| 0 <= j < s.drop_last().len() implies (#[trigger] s.drop_last()[j]).0
            != c by {
            assert(s.drop_last()[j] == s[j]);
        }
        lemma_table_lookup_none(s.drop_last(), c);
    }
}

/// Encoding one more symbol appends its code.
proof fn lemma_concat_push(t: HuffTree, s: Seq<char>, c: char)
    ensures
        spec_concat_codes(t, s.push(c)) == spec_concat_codes(t, s) + spec_branches(t)[c],
    decreases s.len(),
{
    if s.len() == 0 {
        assert(s.push(c)[0] == c);
        assert(s.push(c).drop_first() =~= s);
        assert(spec_concat_codes(t, s) == Seq::<bool>::empty());
        assert(spec_branches(t)[c] + Seq::<bool>::empty() =~= spec_branches(t)[c]);
        assert(Seq::<bool>::empty() + spec_branches(t)[c] =~= spec_branches(t)[c]);
    } else {
        lemma_concat_push(t, s.drop_first(), c);
        assert(s.push(c)[0] == s[0]);
        assert(s.push(c).drop_first() =~= s.drop_first().push(c));
        assert(spec_branches(t)[s[0]] + (spec_concat_codes(t, s.drop_first()) + spec_branches(
            t,
        )[c]) =~= (spec_branches(t)[s[0]] + spec_concat_codes(t, s.drop_first()))
            + spec_branches(t)[c]);
    }
}

/// The code table of a bare leaf holds that one symbol.
proof fn lemma_leaf_dom(c: char)
    ensures
        spec_branches(HuffTree::Leaf(c)).dom() =~= set![c],
{
}

/// One step of the decoding walk: the next bit picks a child; a leaf emits
/// its symbol and resets the cursor, an internal node moves it.
proof fn lemma_decode_step(root: TreeRoot, pos: TreeRoot, bits: Seq<bool>, i: int)
    requires
        0 <= i < bits.len(),
    ensures
        (if bits[i] {
            pos.lhs
        } else {
            pos.rhs
        }) matches HuffTree::Leaf(c) ==> spec_decode_from(root, pos, bits.skip(i)) == seq![c]
            + spec_decode_from(root, root, bits.skip(i + 1)),
        (if bits[i] {
            pos.lhs
        } else {
            pos.rhs
        }) matches HuffTree::NonLeaf(r) ==> spec_decode_from(root, pos, bits.skip(i))
            == spec_decode_from(root, *r, bits.skip(i + 1)),
{
    assert(bits.skip(i).len() == bits.len() - i);
    assert(bits.skip(i)[0] == bits[i]);
    assert(bits.skip(i).drop_first() =~= bits.skip(i + 1));
}

/// Looks a symbol up in the code table; the latest entry wins, as it does
/// in the mapping the table stands for.
fn table_lookup<'a>(table: &'a Vec<(char, Vec<bool>)>, c: char) -> (r: Option<&'a Vec<bool>>)
    ensures
        (match r {
            Some(p) => table_map(table@).dom().contains(c) && p@ == table_map(table@)[c],
            None => !table_map(table@).dom().contains(c),
        }),
{
    let mut k = table.len();
    while k > 0
        invariant
            k <= table@.len(),
            forall|j: int| k <= j < table@.len() ==> (#[trigger] table@[j]).0 != c,
        decreases k,
    {
        k -= 1;
        if table[k].0 == c {
            proof {
                lemma_table_lookup_found(table@, c, k as int);
            }
            return Some(&table[k].1);
        }
    }
    proof {
        lemma_table_lookup_none(table@, c);
    }
    None
}

/// Encodes the message against the tree: each symbol's code, concatenated
/// in message order; against a bare leaf, one bit per occurrence. Fails
/// with `UnknownSymbol` exactly when some symbol of the message is not in
/// the tree's code table. The caller keeps the encoded length under the
/// bit-vector capacity, a bound no message that fits in memory comes near.
pub fn encode(htree: &HuffTree, value: &String) -> (r: Result<BitSeq, HuffError>)
    requires
        spec_encode_ok(*htree, value@) ==> spec_encode_bits(*htree, value@).len()
            <= bitvec_capacity(),
    ensures
        (match r {
            Ok(bits) => spec_encode_ok(*htree, value@) && bit_seq(bits) == spec_encode_bits(
                *htree,
                value@,
            ),
            Err(e) => !spec_encode_ok(*htree, value@) && e == HuffError::UnknownSymbol,
        }),
{
    let s = value.as_str();
    let n = s.unicode_len();
    match htree {
        HuffTree::Leaf(lc) => {
            let mut bits: Vec<bool> = Vec::new();
            let mut i: usize = 0;
            while i < n
                invariant
                    n == value@.len(),
                    s@ == value@,
                    i <= n,
                    bits@ == Seq::new(i as nat, |k: int| true),
                    forall|j: int| 0 <= j < i ==> value@[j] == *lc,
                    *htree == HuffTree::Leaf(*lc),
                    spec_encode_ok(*htree, value@) ==> spec_encode_bits(*htree, value@).len()
                        <= bitvec_capacity(),
                decreases n - i,
            {
                let ch = s.get_char(i);
                if ch != *lc {
                    proof {
                        lemma_leaf_dom(*lc);
                        assert(!spec_branches(*htree).dom().contains(value@[i as int]));
                        assert(!spec_encode_ok(*htree, value@));
                    }
                    return Err(HuffError::UnknownSymbol);
                }
                bits.push(true);
                proof {
                    assert(bits@ =~= Seq::new((i + 1) as nat, |k: int| true));
                }
                i += 1;
            }
            proof {
                lemma_leaf_dom(*lc);
                assert forall|j: int| 0 <= j < value@.len() implies spec_branches(
                    *htree,
                ).dom().contains(#[trigger] value@[j]) by {
                    assert(value@[j] == *lc);
                }
                assert(spec_encode_ok(*htree, value@));
                assert(bits@ =~= spec_encode_bits(*htree, value@));
            }
            Ok(bv_from_bools(&bits))
        },
        HuffTree::NonLeaf(_) => {
            let table = branches(htree);
            let mut bits: Vec<bool> = Vec::new();
            let mut i: usize = 0;
            while i < n
                invariant
                    n == value@.len(),
                    s@ == value@,
                    i <= n,
                    table_map(table@) == spec_branches(*htree),
                    bits@ == spec_concat_codes(*htree, value@.take(i as int)),
                    forall|j: int|
                        0 <= j < i ==> spec_branches(*htree).dom().contains(
                            #[trigger] value@[j],
                        ),
                    *htree matches HuffTree::NonLeaf(_),
                    spec_encode_ok(*htree, value@) ==> spec_encode_bits(*htree, value@).len()
                        <= bitvec_capacity(),
                decreases n - i,
            {
                let ch = s.get_char(i);
                let code = table_lookup(&table, ch);
                match code {
                    None => {
                        proof {
                            assert(!spec_branches(*htree).dom().contains(value@[i as int]));
                            assert(!spec_encode_ok(*htree, value@));
                        }
                        return Err(HuffError::UnknownSymbol);
                    },
                    Some(code) => {
                        let ghost done = bits@;
                        let mut jj: usize = 0;
                        while jj < code.len()
                            invariant
                                jj <= code@.len(),
                                bits@ == done + code@.take(jj as int),
                            decreases code@.len() - jj,
                        {
                            bits.push(code[jj]);
                            proof {
                                assert(code@.take(jj as int).push(code@[jj as int]) =~= code@.take(
                                    jj as int + 1,
                                ));
                                assert(done + code@.take(jj as int).push(code@[jj as int]) =~= (done
                                    + code@.take(jj as int)).push(code@[jj as int]));
                            }
                            jj += 1;
                        }
                        proof {
                            assert(code@.take(code@.len() as int) =~= code@);
                            lemma_concat_push(*htree, value@.take(i as int), value@[i as int]);
                            assert(value@.take(i as int).push(value@[i as int]) =~= value@.take(
                                i as int + 1,
                            ));
                        }
                    },
                }
                i += 1;
            }
            proof {
                assert(value@.take(n as int) =~= value@);
                assert(spec_encode_ok(*htree, value@));
                assert(spec_encode_bits(*htree, value@) == spec_concat_codes(*htree, value@));
            }
            Ok(bv_from_bools(&bits))
        },
    }
}

/// Decodes the bit sequence against the tree: walk from the root, `true`
/// to the left child and `false` to the right; a leaf emits its symbol and
/// the walk resets to the root. A bare leaf emits its symbol once per bit.
/// Bits that end mid-path are dropped silently: the output simply misses
/// the trailing partial symbol.
pub fn decode(entry: &HuffTree, bytes: &BitSeq) -> (r: String)
    ensures
        r@ == spec_decode(*entry, bit_seq(*bytes)),
{
    let ghost bits = bit_seq(*bytes);
    let n = bv_len(bytes);
    let mut ret = String::new();
    match entry {
        HuffTree::Leaf(c) => {
            let mut i: usize = 0;
            while i < n
                invariant
                    n == bits.len(),
                    bits == bit_seq(*bytes),
                    i <= n,
                    ret@ == Seq::new(i as nat, |k: int| *c),
                decreases n - i,
            {
                push_char(&mut ret, *c);
                proof {
                    assert(ret@ =~= Seq::new((i + 1) as nat, |k: int| *c));
                }
                i += 1;
            }
            proof {
                assert(ret@ =~= spec_decode(*entry, bits));
            }
            ret
        },
        HuffTree::NonLeaf(rt) => {
            let root: &TreeRoot = &**rt;
            let mut pos: &TreeRoot = root;
            let mut i: usize = 0;
            proof {
                assert(bits.skip(0) =~= bits);
                assert(Seq::<char>::empty() + spec_decode_from(*root, *root, bits)
                    =~= spec_decode_from(*root, *root, bits));
            }
            while i < n
                invariant
                    n == bits.len(),
                    bits == bit_seq(*bytes),
                    i <= n,
                    spec_decode_from(*root, *root, bits) == ret@ + spec_decode_from(
                        *root,
                        *pos,
                        bits.skip(i as int),
                    ),
                decreases n - i,
            {
                let b = bv_get(bytes, i);
                let ghost old_ret = ret@;
                let ghost old_pos = *pos;
                proof {
                    lemma_decode_step(*root, *pos, bits, i as int);
                }
                let branch: &HuffTree = if b {
                    &pos.lhs
                } else {
                    &pos.rhs
                };
                match branch {
                    HuffTree::Leaf(lv) => {
                        push_char(&mut ret, *lv);
                        pos = root;
                        proof {
                            assert(old_ret + (seq![*lv] + spec_decode_from(
                                *root,
                                *root,
                                bits.skip(i as int + 1),
                            )) =~= ret@ + spec_decode_from(*root, *root, bits.skip(i as int + 1)));
                        }
                    },
                    HuffTree::NonLeaf(r2) => {
                        pos = &**r2;
                    },
                }
                i += 1;
            }
            proof {
                assert(bits.skip(n as int) =~= Seq::<bool>::empty());
                assert(spec_decode_from(*root, *pos, bits.skip(n as int)) =~= Seq::<char>::empty());
                assert(ret@ + Seq::<char>::empty() =~= ret@);
            }
            ret
        },
    }
}

} // verus!
