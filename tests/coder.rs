use sozip::{build_tree, decode, deflate, encode, fill_dict, inflate, message_tree, SZEntry, Word};

fn abracadabra() -> Vec<u8> {
    b"abracadabra".to_vec()
}

#[test]
fn word_constructors() {
    let leaf = Word::new(b'x', 4);
    assert_eq!(leaf.value(), Some(b'x'));
    assert_eq!(leaf.count, 4);
    assert!(leaf.left.is_none() && leaf.right.is_none());
    let hole = Word::empty(9);
    assert_eq!(hole.value(), None);
    assert_eq!(hole.count, 9);
    let node = Word::tree(3, 7, Some(Word::new(b'a', 3)), None);
    assert_eq!(node.value(), None);
    assert_eq!(node.count, 7);
    assert_eq!(node.left.as_ref().unwrap().value(), Some(b'a'));
    assert!(node.right.is_none());
    let code = SZEntry::new(5, 3);
    assert_eq!((code.value, code.bits), (5, 3));
}

#[test]
fn frequency_table_of_abracadabra() {
    let table = fill_dict(&abracadabra());
    assert_eq!(table.len(), 6);
    assert!(table[0].is_empty);
    assert_eq!(table[0].count, 11);
    let rows: Vec<(Option<u8>, usize)> = table[1..].iter().map(|w| (w.value(), w.count)).collect();
    assert_eq!(
        rows,
        vec![(Some(b'a'), 5), (Some(b'b'), 2), (Some(b'r'), 2), (Some(b'c'), 1), (Some(b'd'), 1)]
    );
}

#[test]
fn frequency_table_of_empty_input() {
    let table = fill_dict(&[]);
    assert_eq!(table.len(), 1);
    assert!(table[0].is_empty);
    assert_eq!(table[0].count, 0);
}

#[test]
fn empty_input_gives_no_tree() {
    let mut table = fill_dict(&[]);
    assert!(build_tree(&mut table).is_none());
    assert!(build_tree(&mut Vec::new()).is_none());
    assert!(message_tree(&[]).is_none());
}

#[test]
fn tree_of_abracadabra_weighs_the_message() {
    let mut table = fill_dict(&abracadabra());
    let tree = build_tree(&mut table).unwrap();
    assert_eq!(tree.count, 11);
    assert_eq!(tree.value(), None);
    assert_eq!(tree.right.as_ref().unwrap().value(), Some(b'a'));
    assert_eq!(tree.left.as_ref().unwrap().count, 6);
    assert_eq!(message_tree(&abracadabra()).unwrap().count, 11);
}

#[test]
fn codes_of_abracadabra() {
    let tree = message_tree(&abracadabra()).unwrap();
    let code = |b: u8| {
        let e = encode(&tree, b).unwrap();
        (e.value, e.bits)
    };
    assert_eq!(code(b'a'), (0b1, 1));
    assert_eq!(code(b'b'), (0b10, 2));
    assert_eq!(code(b'r'), (0b000, 3));
    assert_eq!(code(b'c'), (0b0100, 4));
    assert_eq!(code(b'd'), (0b1100, 4));
}

#[test]
fn encode_absent_byte() {
    let tree = message_tree(&abracadabra()).unwrap();
    assert!(encode(&tree, b'z').is_none());
    assert!(encode(&tree, 0).is_none());
}

#[test]
fn decode_inverts_encode() {
    let data = abracadabra();
    let tree = message_tree(&data).unwrap();
    for &b in &data {
        let code = encode(&tree, b).unwrap();
        assert_eq!(decode(&tree, code), Some(b));
    }
}

#[test]
fn decode_bad_paths() {
    let tree = message_tree(&abracadabra()).unwrap();
    // ends on an internal node
    assert_eq!(decode(&tree, SZEntry::new(0, 1)), None);
    // the empty path names the internal root
    assert_eq!(decode(&tree, SZEntry::new(0, 0)), None);
    // steps below a leaf
    assert_eq!(decode(&tree, SZEntry::new(0b11, 2)), None);
}

#[test]
fn codes_are_prefix_free() {
    let data = abracadabra();
    let tree = message_tree(&data).unwrap();
    let bits = |b: u8| {
        let e = encode(&tree, b).unwrap();
        (0..e.bits).map(|i| (e.value >> i) & 1).collect::<Vec<usize>>()
    };
    let symbols = [b'a', b'b', b'r', b'c', b'd'];
    for &x in &symbols {
        for &y in &symbols {
            if x != y {
                let (p, q) = (bits(x), bits(y));
                assert!(!(p.len() <= q.len() && q[..p.len()] == p[..]));
            }
        }
    }
}

#[test]
fn pack_abracadabra() {
    let data = abracadabra();
    let tree = message_tree(&data).unwrap();
    let packed = inflate(&data, &tree).unwrap();
    assert_eq!(packed, vec![42, 82, 46, 2]);
    // 3 header bits and 23 code bits: 26 bits, 2 in the last byte
    assert_eq!(packed[0] & 0b111, 26 % 8);
    assert_eq!(deflate(&packed, &tree).unwrap(), data);
}

#[test]
fn pack_is_deterministic() {
    let data = abracadabra();
    let first = inflate(&data, &message_tree(&data).unwrap()).unwrap();
    let second = inflate(&data, &message_tree(&data).unwrap()).unwrap();
    assert_eq!(first, second);
}

#[test]
fn single_symbol_message() {
    let data = b"aaaa".to_vec();
    let mut table = fill_dict(&data);
    assert_eq!(table.len(), 2);
    let tree = build_tree(&mut table).unwrap();
    assert_eq!(tree.count, 4);
    assert!(tree.left.is_none());
    assert_eq!(tree.right.as_ref().unwrap().value(), Some(b'a'));
    let code = encode(&tree, b'a').unwrap();
    assert_eq!((code.value, code.bits), (1, 1));
    let packed = inflate(&data, &tree).unwrap();
    assert_eq!(packed, vec![0x7F]);
    assert_eq!(deflate(&packed, &tree).unwrap(), data);
}

#[test]
fn full_last_byte_header_is_zero() {
    let data = b"aaaaa".to_vec();
    let tree = message_tree(&data).unwrap();
    let packed = inflate(&data, &tree).unwrap();
    assert_eq!(packed, vec![0xF8]);
    assert_eq!(deflate(&packed, &tree).unwrap(), data);
}

#[test]
fn pack_empty_message() {
    let tree = message_tree(b"ab").unwrap();
    let packed = inflate(&[], &tree).unwrap();
    assert_eq!(packed, vec![3]);
    assert_eq!(deflate(&packed, &tree).unwrap(), Vec::<u8>::new());
    assert_eq!(deflate(&[], &tree).unwrap(), Vec::<u8>::new());
}

#[test]
fn pack_symbol_missing_from_tree() {
    let tree = message_tree(b"abc").unwrap();
    assert!(inflate(b"abz", &tree).is_none());
}

#[test]
fn unpack_malformed_buffer() {
    let tree = message_tree(b"aaaa").unwrap();
    // a 0 bit steps into the absent left child of the root
    assert!(deflate(&[0b0000_0111], &tree).is_none());
}

#[test]
fn round_trip_many_messages() {
    let messages: Vec<Vec<u8>> = vec![
        b"hello world".to_vec(),
        b"mississippi".to_vec(),
        b"ab".to_vec(),
        (0u8..=255).collect(),
        b"the quick brown fox jumps over the lazy dog".to_vec(),
        vec![0, 0, 0, 1, 1, 2],
    ];
    for data in messages {
        let tree = message_tree(&data).unwrap();
        assert_eq!(tree.count, data.len());
        let packed = inflate(&data, &tree).unwrap();
        assert_eq!(deflate(&packed, &tree).unwrap(), data);
    }
}

#[test]
fn node_descriptions() {
    assert_eq!(Word::new(b'a', 5).describe(), "'a' -> 97 (5)");
    assert_eq!(Word::empty(11).describe(), "\u{d8}(11)");
    assert_eq!(Word::new(b'a', 5).name(), "97_a");
    assert_eq!(Word::tree(0, 11, None, None).name(), "0_11");
    assert_eq!(Word::tree(123, 7, None, None).name(), "123_7");
}

#[test]
fn code_bit_strings() {
    assert_eq!(SZEntry::new(0b1100, 4).bit_string(), "0011");
    assert_eq!(SZEntry::new(0b1, 1).bit_string(), "1");
    assert_eq!(SZEntry::new(0, 0).bit_string(), "");
    assert_eq!(SZEntry::new(0b10, 3).bit_string(), "010");
}

#[test]
fn graph_listing() {
    let tree = message_tree(b"aaaa").unwrap();
    assert_eq!(tree.dot_text(), "graph TREE {\n\"0_4\" -- \"97_a\";\n}\n");
    let tree = message_tree(b"aab").unwrap();
    assert_eq!(
        tree.dot_text(),
        "graph TREE {\n\"0_3\" -- \"97_a\";\n\"0_3\" -- \"98_b\";\n}\n"
    );
}

#[test]
fn codes_of_two_leaf_trees() {
    let tree = Word::tree(0, 2, Some(Word::new(b'x', 1)), Some(Word::new(b'y', 1)));
    assert_eq!(encode(&tree, b'x').map(|c| (c.value, c.bits)), Some((0, 1)));
    assert_eq!(encode(&tree, b'y').map(|c| (c.value, c.bits)), Some((1, 1)));
    assert!(encode(&tree, b'z').is_none());
    // the internal root's label 0 is not a match: the true leaf 0 is
    let tree = Word::tree(0, 2, Some(Word::new(0, 1)), Some(Word::new(1, 1)));
    assert_eq!(encode(&tree, 0).map(|c| (c.value, c.bits)), Some((0, 1)));
}

#[test]
fn build_tree_leaves_short_lists_alone() {
    let mut words: Vec<Word> = Vec::new();
    assert!(build_tree(&mut words).is_none());
    assert!(words.is_empty());
    let mut words = vec![Word::empty(0)];
    assert!(build_tree(&mut words).is_none());
    assert_eq!(words.len(), 1);
}

#[test]
fn long_codes_round_trip() {
    let counts = [1usize, 1, 2, 3, 5, 8, 13, 21, 34, 55];
    let mut data = Vec::new();
    for (i, &c) in counts.iter().enumerate() {
        for _ in 0..c {
            data.push(b'a' + i as u8);
        }
    }
    let tree = message_tree(&data).unwrap();
    assert!(encode(&tree, b'a').unwrap().bits > 8);
    let packed = inflate(&data, &tree).unwrap();
    assert_eq!(deflate(&packed, &tree).unwrap(), data);
}
