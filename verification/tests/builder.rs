use static_trie::{build_trie, common_prefix_len, BuildError, Terminal, Trie, TrieBuilder, TrieNode};

fn key(s: &str) -> Vec<u8> {
    let mut k = s.as_bytes().to_vec();
    k.push(0);
    k
}

fn numbered(keys: &[Vec<u8>]) -> Vec<Terminal> {
    keys.iter()
        .enumerate()
        .map(|(i, k)| Terminal { key: k.clone(), term_id: i as u32 + 1 })
        .collect()
}

#[test]
fn common_prefix_len_cases() {
    assert_eq!(common_prefix_len(b"", b""), 0);
    assert_eq!(common_prefix_len(b"abc", b""), 0);
    assert_eq!(common_prefix_len(b"", b"abc"), 0);
    assert_eq!(common_prefix_len(b"abc", b"abd"), 2);
    assert_eq!(common_prefix_len(b"abc", b"abcde"), 3);
    assert_eq!(common_prefix_len(b"abcde", b"abc"), 3);
    assert_eq!(common_prefix_len(b"abc", b"abc"), 3);
    assert_eq!(common_prefix_len(b"xbc", b"abc"), 0);
}

#[test]
fn trie_node_new_has_no_children() {
    let n = TrieNode::new(3, 9, b"abc".to_vec(), true);
    assert_eq!(n.prefix_len, 3);
    assert_eq!(n.term_id, 9);
    assert_eq!(n.term, b"abc".to_vec());
    assert_eq!(n.ptr, 0);
    assert!(n.is_terminal);
    assert!(n.children.is_empty());
}

#[test]
fn stack_grows_with_the_path() {
    let mut t = TrieBuilder::new();
    assert_eq!(t.st_top(), 0);
    t.add(key("kok")).unwrap();
    // the root and the key
    assert_eq!(t.st_top(), 1);
    t.add(key("kokot")).unwrap();
    // the root, the node of "kok", and the key
    assert_eq!(t.st_top(), 2);
    t.add(key("kuk")).unwrap();
    // the root, the node of "k", and the key
    assert_eq!(t.st_top(), 2);
    assert!(!t.bytes().is_empty());
}

#[test]
fn write_min_bytes_is_big_endian_without_leading_zeros() {
    let mut t = TrieBuilder::new();
    t.write_min_bytes(0x01_2345);
    assert_eq!(t.bytes(), &vec![0x01, 0x23, 0x45]);
    t.write_min_bytes(0xff);
    t.write_min_bytes(0x100);
    t.write_min_bytes(0);
    t.write_min_bytes(u32::MAX);
    t.write_min_bytes(0xf0);
    assert_eq!(
        t.bytes(),
        &vec![0x01, 0x23, 0x45, 0xff, 0x01, 0x00, 0x00, 0xff, 0xff, 0xff, 0xff, 0xf0]
    );
}

#[test]
fn assemble_bytes_reads_big_endian() {
    let bytes = [0x01u8, 0x23, 0x45, 0x67, 0x89];
    let trie = Trie::new(&bytes, 0);
    assert_eq!(trie.assemble_bytes(0, 0), 0);
    assert_eq!(trie.assemble_bytes(0, 1), 0x01);
    assert_eq!(trie.assemble_bytes(1, 2), 0x2345);
    assert_eq!(trie.assemble_bytes(2, 3), 0x45_6789);
    assert_eq!(trie.assemble_bytes(0, 4), 0x0123_4567);
    assert_eq!(trie.assemble_bytes(1, 4), 0x2345_6789);
}

#[test]
fn flush_children_writes_the_record_of_a_node() {
    let mut t = TrieBuilder::new();
    let mut c = TrieNode::new(1, 0, b"c".to_vec(), false);
    c.children.push(TrieNode::new(2, 1, b"cx".to_vec(), true));
    assert_eq!(t.flush_children(&mut c), Ok(()));
    assert_eq!(c.ptr, 0);
    assert_eq!(t.bytes(), &vec![0x00, 0xbc, 0x00, 0x01]);

    let mut root = TrieNode::new(0, 0, Vec::new(), false);
    root.children.push(TrieNode::new(2, 300, b"ab".to_vec(), true));
    root.children.push(c);
    assert_eq!(t.flush_children(&mut root), Ok(()));
    assert_eq!(root.ptr, 4);
    assert_eq!(
        t.bytes(),
        &vec![0x00, 0xbc, 0x00, 0x01, 0x01, 0x98, 0x58, 0xd0, 0x40, 0x01, 0x2c, 0x04, 0x62]
    );

    let bytes = t.bytes().clone();
    let trie = Trie::new(&bytes, 4);
    assert_eq!(
        trie.entries().unwrap(),
        vec![
            Terminal { key: b"ab".to_vec(), term_id: 300 },
            Terminal { key: b"cx".to_vec(), term_id: 1 },
        ]
    );
}

#[test]
fn flush_children_leaves_a_key_alone() {
    let mut t = TrieBuilder::new();
    t.write_min_bytes(0x1234);
    let mut k = TrieNode::new(2, 5, b"ab".to_vec(), true);
    k.ptr = 9;
    k.children.push(TrieNode::new(3, 6, b"abc".to_vec(), true));
    assert_eq!(t.flush_children(&mut k), Ok(()));
    assert_eq!(t.bytes(), &vec![0x12, 0x34]);
    assert_eq!(k.term_id, 5);
    assert!(k.is_terminal);
    assert_eq!(k.ptr, 9);
    assert_eq!(k.children.len(), 1);
    assert_eq!(k.children[0].term, b"abc".to_vec());
}

#[test]
fn a_new_builder_has_no_output() {
    let mut t = TrieBuilder::new();
    assert!(t.bytes().is_empty());
    assert_eq!(t.st_top(), 0);
    t.write_min_bytes(0x1234);
    assert_eq!(t.bytes(), &vec![0x12, 0x34]);
}

fn long_child() -> TrieNode {
    let mut root = TrieNode::new(0, 0, Vec::new(), false);
    root.children.push(TrieNode::new(40, 7, vec![b'a'; 40], true));
    root
}

#[test]
fn phantomize_children_cuts_a_long_edge() {
    let mut t = TrieBuilder::new();
    let mut root = long_child();
    assert_eq!(t.phantomize_children(&mut root, 16), Ok(()));
    // two nodes: at depth 32 with the key, at depth 16 with that node
    let mut want = vec![0x00, 0xb0, 0x8e, 0x07];
    want.extend(vec![b'a'; 7]);
    want.extend(vec![0x00, 0x30, 0x9e, 0x0b]);
    want.extend(vec![b'a'; 15]);
    assert_eq!(t.bytes(), &want);
    assert_eq!(root.children.len(), 1);
    let c = &root.children[0];
    assert!(!c.is_terminal);
    assert_eq!(c.prefix_len, 16);
    assert_eq!(c.term, vec![b'a'; 16]);
    assert_eq!(c.ptr, 11);
}

#[test]
fn phantomize_children_with_a_shorter_limit() {
    let mut t = TrieBuilder::new();
    let mut root = long_child();
    assert_eq!(t.phantomize_children(&mut root, 4), Ok(()));
    // three nodes: at depth 36, at depth 20, at depth 4
    let mut want = vec![0x00, 0xb0, 0x86, 0x07];
    want.extend(vec![b'a'; 3]);
    want.extend(vec![0x00, 0x30, 0x9e, 0x07]);
    want.extend(vec![b'a'; 15]);
    want.extend(vec![0x00, 0x30, 0x9e, 0x13]);
    want.extend(vec![b'a'; 15]);
    assert_eq!(t.bytes(), &want);
    let c = &root.children[0];
    assert_eq!(c.prefix_len, 4);
    assert_eq!(c.ptr, 26);
}

#[test]
fn phantomize_children_keeps_short_edges() {
    let mut t = TrieBuilder::new();
    let mut root = TrieNode::new(0, 0, Vec::new(), false);
    root.children.push(TrieNode::new(16, 1, vec![b'a'; 16], true));
    root.children.push(TrieNode::new(1, 2, vec![b'b'], true));
    assert_eq!(t.phantomize_children(&mut root, 16), Ok(()));
    assert!(t.bytes().is_empty());
    assert!(root.children[0].is_terminal);
    assert_eq!(root.children[0].prefix_len, 16);
    assert!(root.children[1].is_terminal);
}

#[test]
fn a_key_of_forty_bytes() {
    let keys = vec![{
        let mut k = vec![b'a'; 40];
        k.push(0);
        k
    }];
    let (buf, root) = build_trie(&keys).unwrap();
    assert_eq!(root, 31);
    assert_eq!(buf.len(), 50);
    // the root record: one child that is no key, 16 bytes of label
    assert_eq!(&buf[31..35], &[0x00, 0x30, 0x9e, 0x13]);
    let trie = Trie::new(&buf, root as usize);
    assert_eq!(trie.entries().unwrap(), numbered(&keys));
}

#[test]
fn the_bytes_of_six_keys() {
    let keys = vec![
        key("kok"),
        key("kokinko"),
        key("kokino"),
        key("kokot"),
        key("kroketa"),
        key("kuk"),
    ];
    let want: Vec<u8> = vec![
        0x01, 0xda, 0xdb, 0xc0, 0x84, 0x02, 0x03, 0x6f, 0x00, 0x00, 0x02, 0xa0, 0x0d, 0x2d, 0xe0,
        0x00, 0x90, 0x01, 0x0a, 0x04, 0x6e, 0x74, 0x00, 0x02, 0x6d, 0xee, 0x4e, 0xa0, 0x0b, 0x10,
        0x0d, 0x05, 0x06, 0x6b, 0x6f, 0x6b, 0x65, 0x74, 0x61, 0x00, 0x6b, 0x00, 0x00, 0x35, 0x80,
        0x13,
    ];
    let (buf, root) = build_trie(&keys).unwrap();
    assert_eq!(buf, want);
    assert_eq!(root, 42);
}

#[test]
fn two_builds_give_the_same_bytes() {
    let keys: Vec<Vec<u8>> = (0..300).map(|i| key(&format!("key{:03}", i))).collect();
    let (first, first_root) = build_trie(&keys).unwrap();
    let (second, second_root) = build_trie(&keys).unwrap();
    assert_eq!(first, second);
    assert_eq!(first_root, second_root);
    assert_eq!(first.len(), 1366);
    assert_eq!(first_root, 1360);

    let mut t = TrieBuilder::new();
    for k in &keys {
        t.add(k.clone()).unwrap();
    }
    assert_eq!(t.finish(), Ok((first, first_root)));
}

#[test]
fn a_root_with_the_most_children() {
    let keys: Vec<Vec<u8>> = (0..=255u8).map(|b| vec![b]).collect();
    let (buf, root) = build_trie(&keys).unwrap();
    assert_eq!(root, 0);
    assert_eq!(buf.len(), 738);
    assert_eq!(buf[0], 0xff);
    let trie = Trie::new(&buf, 0);
    assert_eq!(trie.read_record(0).unwrap().len(), 256);
    assert_eq!(trie.entries().unwrap(), numbered(&keys));
}

#[test]
fn term_ids_of_three_bytes() {
    let keys: Vec<Vec<u8>> = (0..70000).map(|i| key(&format!("k{:05}", i))).collect();
    let (buf, root) = build_trie(&keys).unwrap();
    assert_eq!(buf.len(), 381793);
    assert_eq!(root, 381789);
    let trie = Trie::new(&buf, root as usize);
    let found = trie.entries().unwrap();
    assert_eq!(found.len(), 70000);
    assert_eq!(found[69999], Terminal { key: key("k69999"), term_id: 70000 });
    assert_eq!(found, numbered(&keys));
}

#[test]
fn keys_with_another_sentinel_and_high_bytes() {
    let keys = vec![vec![0xff, 0xfe, 0x01], vec![0xff, 0xff, 0x01]];
    let (buf, root) = build_trie(&keys).unwrap();
    assert_eq!(
        buf,
        vec![0x01, 0xff, 0xbf, 0xc0, 0x44, 0x01, 0x02, 0x01, 0x01, 0x00, 0x7f, 0x80, 0x09]
    );
    assert_eq!(root, 9);
    let trie = Trie::new(&buf, root as usize);
    assert_eq!(trie.entries().unwrap(), numbered(&keys));
}

#[test]
fn build_trie_fails_with_the_first_bad_key() {
    let keys = vec![key("b"), key("a"), key("a")];
    assert_eq!(build_trie(&keys), Err(BuildError::OutOfOrderKey));
    let keys = vec![key("a"), key("a"), key("0")];
    assert_eq!(build_trie(&keys), Err(BuildError::PrefixKey));
    let none: Vec<Vec<u8>> = Vec::new();
    assert_eq!(build_trie(&none), Ok((Vec::new(), 0)));
}

#[test]
fn traverse_from_a_node_inside() {
    let keys = vec![key("kok"), key("kokot"), key("kuk")];
    let (buf, root) = build_trie(&keys).unwrap();
    let trie = Trie::new(&buf, root as usize);
    let top = trie.read_record(root as usize).unwrap();
    assert_eq!(top.len(), 1);
    let k_at = root as usize - top[0].pointer as usize;
    // walking from the node of "k", behind a prefix of our own
    let found = trie.traverse(k_at, b"K".to_vec()).unwrap();
    assert_eq!(
        found,
        vec![
            Terminal { key: b"Kok\0".to_vec(), term_id: 1 },
            Terminal { key: b"Kokot\0".to_vec(), term_id: 2 },
            Terminal { key: b"Kuk\0".to_vec(), term_id: 3 },
        ]
    );
}
