//! The branch-table builder: an iterative walk of the tree with an explicit
//! work stack, each work item a node together with its path from the root,
//! and the proof that the finished table is exactly the tree's code table.
use vstd::prelude::*;

use crate::tree::spec_branches;
use crate::tree::prefixed;
use crate::tree::tree_size;
use crate::tree::HuffTree;

verus! {

/// The mapping an association list stands for; a later entry overrides an
/// earlier one with the same symbol.
pub open spec fn table_map(s: Seq<(char, Vec<bool>)>) -> Map<char, Seq<bool>>
    decreases s.len(),
{
    if s.len() == 0 {
        Map::empty()
    } else {
        table_map(s.drop_last()).insert(s.last().0, s.last().1@)
    }
}

/// What the work stack still contributes to the table: the top of the
/// stack is visited first, so entries below it override its symbols.
pub open spec fn stack_map(s: Seq<(&HuffTree, Vec<bool>)>) -> Map<char, Seq<bool>>
    decreases s.len(),
{
    if s.len() == 0 {
        Map::empty()
    } else {
        prefixed(spec_branches(*s.last().0), s.last().1@).union_prefer_right(
            stack_map(s.drop_last()),
        )
    }
}

/// Total size of the subtrees still on the work stack.
pub open spec fn stack_size(s: Seq<(&HuffTree, Vec<bool>)>) -> nat
    decreases s.len(),
{
    if s.len() == 0 {
        0
    } else {
        stack_size(s.drop_last()) + tree_size(*s.last().0)
    }
}

/// Prefixing with the empty path changes nothing.
pub proof fn lemma_prefixed_empty(m: Map<char, Seq<bool>>)
    ensures
        prefixed(m, Seq::empty()) == m,
{
    assert forall|k: char| #[trigger] m.dom().contains(k) implies prefixed(m, Seq::empty())[k]
        == m[k] by {
        assert(Seq::empty() + m[k] =~= m[k]);
    }
    assert(prefixed(m, Seq::empty()) =~= m);
}

/// Prefixing twice is prefixing with the concatenation.
pub proof fn lemma_prefixed_compose(m: Map<char, Seq<bool>>, p: Seq<bool>, q: Seq<bool>)
    ensures
        prefixed(prefixed(m, q), p) == prefixed(m, p + q),
{
    assert forall|k: char| #[trigger] m.dom().contains(k) implies prefixed(prefixed(m, q), p)[k]
        == prefixed(m, p + q)[k] by {
        assert(p + (q + m[k]) =~= (p + q) + m[k]);
    }
    assert(prefixed(prefixed(m, q), p) =~= prefixed(m, p + q));
}

/// Prefixing distributes over a right-preferring union.
pub proof fn lemma_prefixed_union(a: Map<char, Seq<bool>>, b: Map<char, Seq<bool>>, p: Seq<bool>)
    ensures
        prefixed(a.union_prefer_right(b), p) == prefixed(a, p).union_prefer_right(
            prefixed(b, p),
        ),
{
    assert(prefixed(a.union_prefer_right(b), p) =~= prefixed(a, p).union_prefer_right(
        prefixed(b, p),
    ));
}

/// The right-preferring union is associative.
pub proof fn lemma_union_assoc(
    a: Map<char, Seq<bool>>,
    b: Map<char, Seq<bool>>,
    c: Map<char, Seq<bool>>,
)
    ensures
        a.union_prefer_right(b).union_prefer_right(c) == a.union_prefer_right(
            b.union_prefer_right(c),
        ),
{
    assert(a.union_prefer_right(b).union_prefer_right(c) =~= a.union_prefer_right(
        b.union_prefer_right(c),
    ));
}

/// The empty map is a unit of the union.
pub proof fn lemma_union_empty(a: Map<char, Seq<bool>>)
    ensures
        a.union_prefer_right(Map::empty()) == a,
        Map::<char, Seq<bool>>::empty().union_prefer_right(a) == a,
{
    assert(a.union_prefer_right(Map::empty()) =~= a);
    assert(Map::<char, Seq<bool>>::empty().union_prefer_right(a) =~= a);
}

/// Recording a leaf's path moves one entry from the stack's contribution
/// into the finished part of the table.
proof fn lemma_step_leaf(
    a: Map<char, Seq<bool>>,
    rest: Map<char, Seq<bool>>,
    c: char,
    pp: Seq<bool>,
)
    ensures
        a.insert(c, pp).union_prefer_right(rest) == a.union_prefer_right(
            prefixed(spec_branches(HuffTree::Leaf(c)), pp).union_prefer_right(rest),
        ),
{
    assert(prefixed(spec_branches(HuffTree::Leaf(c)), pp)[c] == pp + Seq::empty());
    assert(pp + Seq::empty() =~= pp);
    assert(a.insert(c, pp).union_prefer_right(rest) =~= a.union_prefer_right(
        prefixed(spec_branches(HuffTree::Leaf(c)), pp).union_prefer_right(rest),
    ));
}

/// Appending one entry to the finished table.
proof fn lemma_table_map_push(s: Seq<(char, Vec<bool>)>, c: char, p: Vec<bool>)
    ensures
        table_map(s.push((c, p))) == table_map(s).insert(c, p@),
{
    assert(s.push((c, p)).drop_last() =~= s);
    assert(s.push((c, p)).last() == (c, p));
}

/// Pushing a work item onto the stack.
proof fn lemma_stack_map_push(s: Seq<(&HuffTree, Vec<bool>)>, t: &HuffTree, p: Vec<bool>)
    ensures
        stack_map(s.push((t, p))) == prefixed(spec_branches(*t), p@).union_prefer_right(
            stack_map(s),
        ),
        stack_size(s.push((t, p))) == stack_size(s) + tree_size(*t),
{
    assert(s.push((t, p)).drop_last() =~= s);
    assert(s.push((t, p)).last() == (t, p));
}

/// The walk's invariant holds as it starts: an empty table, and the whole
/// tree on the stack under the empty path.
proof fn lemma_walk_init(
    entry: &HuffTree,
    rv: Seq<(char, Vec<bool>)>,
    s: Seq<(&HuffTree, Vec<bool>)>,
    p: Vec<bool>,
)
    requires
        rv.len() == 0,
        s.len() == 1,
        s[0].0 == entry,
        s[0].1 == p,
        p@.len() == 0,
    ensures
        table_map(rv).union_prefer_right(stack_map(s)) == spec_branches(*entry),
{
    assert(s.drop_last() =~= Seq::<(&HuffTree, Vec<bool>)>::empty());
    assert(s.last() == s[0]);
    assert(p@ =~= Seq::<bool>::empty());
    assert(rv =~= Seq::<(char, Vec<bool>)>::empty());
    assert(stack_map(s.drop_last()) == Map::<char, Seq<bool>>::empty());
    assert(stack_map(s) == prefixed(spec_branches(*s.last().0), s.last().1@).union_prefer_right(
        stack_map(s.drop_last()),
    ));
    assert(table_map(rv) == Map::<char, Seq<bool>>::empty());
    assert(*s.last().0 == *entry);
    assert(s.last().1@ == p@);
    lemma_prefixed_empty(spec_branches(*entry));
    lemma_union_empty(prefixed(spec_branches(*entry), p@));
    lemma_union_empty(spec_branches(*entry));
}

/// When the stack has run dry the finished table is the whole result.
proof fn lemma_walk_done(rv: Seq<(char, Vec<bool>)>, s: Seq<(&HuffTree, Vec<bool>)>)
    requires
        s.len() == 0,
    ensures
        table_map(rv).union_prefer_right(stack_map(s)) == table_map(rv),
{
    assert(stack_map(s) == Map::<char, Seq<bool>>::empty());
    lemma_union_empty(table_map(rv));
}

/// Copies a path buffer, so a recorded code is a snapshot and not a view
/// of the still-changing buffer.
fn copy_bits(src: &Vec<bool>) -> (r: Vec<bool>)
    ensures
        r@ == src@,
{
    let mut r: Vec<bool> = Vec::new();
    let mut i: usize = 0;
    while i < src.len()
        invariant
            i <= src@.len(),
            r@ == src@.take(i as int),
        decreases src@.len() - i,
    {
        r.push(src[i]);
        proof {
            assert(src@.take(i as int).push(src@[i as int]) =~= src@.take(i as int + 1));
        }
        i += 1;
    }
    proof {
        assert(src@.take(src@.len() as int) =~= src@);
    }
    r
}

/// Walks the tree once, iteratively, and returns its code table: one entry
/// per leaf symbol, mapped to the root-to-leaf path, `true` for left and
/// `false` for right. The explicit stack holds (node, path-so-far) items,
/// the left child pushed last so it is visited first.
pub(crate) fn branches(entry: &HuffTree) -> (r: Vec<(char, Vec<bool>)>)
    ensures
        table_map(r@) == spec_branches(*entry),
{
    let mut rtn: Vec<(char, Vec<bool>)> = Vec::new();
    let mut tree_stack: Vec<(&HuffTree, Vec<bool>)> = Vec::new();
    let empty_path: Vec<bool> = Vec::new();
    tree_stack.push((entry, empty_path));
    proof {
        lemma_walk_init(entry, rtn@, tree_stack@, empty_path);
    }
    while tree_stack.len() > 0
        invariant
            table_map(rtn@).union_prefer_right(stack_map(tree_stack@)) == spec_branches(*entry),
        decreases stack_size(tree_stack@),
    {
        let ghost sv = tree_stack@;
        let item = tree_stack.pop().unwrap();
        proof {
            assert(tree_stack@ =~= sv.drop_last());
            assert(sv.last() == item);
        }
        let (t, path) = item;
        match t {
            HuffTree::Leaf(c) => {
                let ghost rv = rtn@;
                rtn.push((*c, path));
                proof {
                    lemma_table_map_push(rv, *c, sv.last().1);
                    lemma_step_leaf(table_map(rv), stack_map(tree_stack@), *c, sv.last().1@);
                    lemma_union_assoc(
                        table_map(rv),
                        prefixed(spec_branches(*t), sv.last().1@),
                        stack_map(tree_stack@),
                    );
                }
            },
            HuffTree::NonLeaf(rt) => {
                let mut left_path = copy_bits(&path);
                left_path.push(true);
                let mut right_path = path;
                right_path.push(false);
                let ghost s0 = tree_stack@;
                tree_stack.push((&rt.rhs, right_path));
                let ghost s1 = tree_stack@;
                tree_stack.push((&rt.lhs, left_path));
                proof {
                    lemma_stack_map_push(s0, &rt.rhs, s1.last().1);
                    lemma_stack_map_push(s1, &rt.lhs, tree_stack@.last().1);
                    let pb = sv.last().1@;
                    let lb = spec_branches(rt.lhs);
                    let rb = spec_branches(rt.rhs);
                    assert(s1.last().1@ =~= pb + seq![false]);
                    assert(tree_stack@.last().1@ =~= pb + seq![true]);
                    lemma_prefixed_union(prefixed(lb, seq![true]), prefixed(rb, seq![false]), pb);
                    lemma_prefixed_compose(lb, pb, seq![true]);
                    lemma_prefixed_compose(rb, pb, seq![false]);
                    lemma_union_assoc(
                        prefixed(lb, pb + seq![true]),
                        prefixed(rb, pb + seq![false]),
                        stack_map(s0),
                    );
                    lemma_union_assoc(
                        table_map(rtn@),
                        prefixed(spec_branches(*t), pb),
                        stack_map(s0),
                    );
                    lemma_union_assoc(
                        table_map(rtn@),
                        prefixed(lb, pb + seq![true]).union_prefer_right(
                            prefixed(rb, pb + seq![false]),
                        ),
                        stack_map(s0),
                    );
                }
            },
        }
    }
    proof {
        lemma_walk_done(rtn@, tree_stack@);
    }
    rtn
}

} // verus!
