use huffman::decode;
use huffman::encode;
use huffman::frequencies;
use huffman::huff_tree;
use huffman::BitSeq;
use huffman::HuffError;
use huffman::HuffTree;
use huffman::TreeRoot;

fn fixed_tree() -> HuffTree {
    HuffTree::NonLeaf(Box::new(TreeRoot {
        lhs: HuffTree::NonLeaf(Box::new(TreeRoot {
            lhs: HuffTree::Leaf('a'),
            rhs: HuffTree::Leaf('z'),
        })),
        rhs: HuffTree::NonLeaf(Box::new(TreeRoot {
            lhs: HuffTree::Leaf('b'),
            rhs: HuffTree::Leaf('c'),
        })),
    }))
}

fn code_of(tree: &HuffTree, c: char) -> Vec<bool> {
    let s: String = c.to_string();
    encode(tree, &s).unwrap().to_bools()
}

fn is_prefix(p: &[bool], q: &[bool]) -> bool {
    p.len() <= q.len() && p.iter().zip(q.iter()).all(|(x, y)| x == y)
}

#[test]
fn full_loop() {
    let message = String::from("aa");
    let htree = huff_tree(&message);
    let encoded = encode(&htree, &message).unwrap();
    let decoded = decode(&htree, &encoded);
    assert_eq!(decoded, message);
}

#[test]
fn round_trip_mixed_message() {
    for message in ["azbbc", "the quick brown fox", "mississippi", "xy"] {
        let message = String::from(message);
        let htree = huff_tree(&message);
        let encoded = encode(&htree, &message).unwrap();
        let decoded = decode(&htree, &encoded);
        assert_eq!(decoded, message);
    }
}

#[test]
fn tree_shape_idempotent() {
    let message = String::from("abracadabra");
    let t1 = huff_tree(&message);
    let t2 = huff_tree(&message);
    let e1 = encode(&t1, &message).unwrap().to_bools();
    let e2 = encode(&t2, &message).unwrap().to_bools();
    assert_eq!(e1, e2);
    for c in ['a', 'b', 'r', 'c', 'd'] {
        assert_eq!(code_of(&t1, c).len(), code_of(&t2, c).len());
    }
    let cross = decode(&t1, &encode(&t2, &message).unwrap());
    assert_eq!(cross, message);
}

#[test]
fn prefix_free_codes() {
    let message = String::from("aaaabbbcc de");
    let tree = huff_tree(&message);
    let syms = ['a', 'b', 'c', ' ', 'd', 'e'];
    for x in syms {
        for y in syms {
            if x != y {
                let px = code_of(&tree, x);
                let py = code_of(&tree, y);
                assert!(!is_prefix(&px, &py), "{x} is a prefix of {y}");
            }
        }
    }
}

#[test]
fn code_length_monotonic() {
    let message = String::from("aaaaaabbbcc d");
    let tree = huff_tree(&message);
    // 'a' occurs 6 times, 'b' 3, 'c' 2: higher frequency, no longer code.
    assert!(code_of(&tree, 'a').len() <= code_of(&tree, 'b').len());
    assert!(code_of(&tree, 'b').len() <= code_of(&tree, 'c').len());
    assert!(code_of(&tree, 'a').len() <= code_of(&tree, 'c').len());
}

#[test]
fn empty_message() {
    let message = String::from("");
    let tree = huff_tree(&message);
    let encoded = encode(&tree, &message).unwrap();
    assert_eq!(encoded.to_bools().len(), 0);
    // The fallback tree is a fixed two-leaf tree over 'a' and 'b'.
    assert_eq!(code_of(&tree, 'a'), vec![true]);
    assert_eq!(code_of(&tree, 'b'), vec![false]);
    assert_eq!(decode(&tree, &encoded), message);
}

#[test]
fn single_symbol_message() {
    let message = String::from("aaaa");
    let tree = huff_tree(&message);
    let encoded = encode(&tree, &message).unwrap();
    assert_eq!(encoded.to_bools().len(), 4);
    assert_eq!(decode(&tree, &encoded), message);
    // Against a bare leaf, any four bits decode to four occurrences.
    let arbitrary = BitSeq::from_bools(&vec![true, false, false, true]);
    assert_eq!(decode(&tree, &arbitrary), message);
}

#[test]
fn concrete_scenario() {
    let tree = fixed_tree();
    let message = String::from("azbbc");
    let encoded = encode(&tree, &message).unwrap();
    let expected = vec![
        true, true, // a
        true, false, // z
        false, true, // b
        false, true, // b
        false, false, // c
    ];
    assert_eq!(encoded.to_bools(), expected);
    assert_eq!(decode(&tree, &encoded), message);
}

#[test]
fn unknown_symbol() {
    let tree = fixed_tree();
    let message = String::from("x");
    let result = encode(&tree, &message);
    assert!(matches!(result, Err(HuffError::UnknownSymbol)));
}

#[test]
fn truncated_bits_drop_partial_symbol() {
    let tree = fixed_tree();
    // A single `true` ends mid-path in a tree whose codes are two bits long.
    let one_bit = BitSeq::from_bools(&vec![true]);
    assert_eq!(decode(&tree, &one_bit), String::from(""));
    // A whole message followed by a dangling bit decodes to that message.
    let mut bits = encode(&tree, &String::from("az")).unwrap().to_bools();
    bits.push(true);
    let truncated = BitSeq::from_bools(&bits);
    assert_eq!(decode(&tree, &truncated), String::from("az"));
}

#[test]
fn frequency_counts() {
    let message = String::from("aabca");
    let freqs = frequencies(&message);
    assert_eq!(freqs, vec![('a', 3), ('b', 1), ('c', 1)]);
}

#[test]
fn frequencies_of_empty_message() {
    let freqs = frequencies(&String::from(""));
    assert!(freqs.is_empty());
}
