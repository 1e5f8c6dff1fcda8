use static_trie::{BuildError, Edge, ReadError, Terminal, Trie, TrieBuilder};

fn key(s: &str) -> Vec<u8> {
    let mut k = s.as_bytes().to_vec();
    k.push(0);
    k
}

fn build(keys: &[Vec<u8>]) -> (Vec<u8>, u32) {
    let mut t = TrieBuilder::new();
    let mut n: u32 = 0;
    for k in keys {
        n += 1;
        assert_eq!(t.add(k.clone()), Ok(n));
    }
    t.finish().unwrap()
}

fn pairs(found: &[Terminal]) -> Vec<(Vec<u8>, u32)> {
    found.iter().map(|t| (t.key.clone(), t.term_id)).collect()
}

fn numbered(keys: &[Vec<u8>]) -> Vec<(Vec<u8>, u32)> {
    keys.iter().enumerate().map(|(i, k)| (k.clone(), i as u32 + 1)).collect()
}

/// The offsets of all records below `at`, `at` first, with their children.
fn records(trie: &Trie, at: usize, out: &mut Vec<(usize, Vec<Edge>)>) {
    let edges = trie.read_record(at).unwrap();
    let below: Vec<usize> = edges
        .iter()
        .filter(|e| !e.is_terminal)
        .map(|e| at - e.pointer as usize)
        .collect();
    out.push((at, edges));
    for b in below {
        records(trie, b, out);
    }
}

#[test]
fn two_keys_share_the_root() {
    let keys = vec![key("a"), key("b")];
    let (buf, root) = build(&keys);
    let trie = Trie::new(&buf, root as usize);
    assert_eq!(pairs(&trie.entries().unwrap()), numbered(&keys));
    let edges = trie.read_record(root as usize).unwrap();
    assert_eq!(edges.len(), 2);
    assert!(edges[0].is_terminal && edges[1].is_terminal);
    assert_eq!(edges[0].label, b"a\0".to_vec());
    assert_eq!(edges[1].label, b"b\0".to_vec());
    assert_eq!(edges[0].pointer, 1);
    assert_eq!(edges[1].pointer, 2);
}

#[test]
fn six_keys_with_shared_prefixes() {
    let keys = vec![
        key("kok"),
        key("kokinko"),
        key("kokino"),
        key("kokot"),
        key("kroketa"),
        key("kuk"),
    ];
    let (buf, root) = build(&keys);
    let trie = Trie::new(&buf, root as usize);
    assert_eq!(pairs(&trie.entries().unwrap()), numbered(&keys));

    // root -> "k" -> "ok": the node of "kok"
    let top = trie.read_record(root as usize).unwrap();
    assert_eq!(top.len(), 1);
    assert!(!top[0].is_terminal);
    assert_eq!(top[0].label, b"k".to_vec());
    let k_at = root as usize - top[0].pointer as usize;
    let k = trie.read_record(k_at).unwrap();
    assert_eq!(k.len(), 3);
    assert_eq!(k[0].label, b"ok".to_vec());
    assert!(!k[0].is_terminal);
    assert_eq!(k[1].label, b"roketa\0".to_vec());
    assert_eq!((k[1].is_terminal, k[1].pointer), (true, 5));
    assert_eq!(k[2].label, b"uk\0".to_vec());
    assert_eq!((k[2].is_terminal, k[2].pointer), (true, 6));
    let kok = trie.read_record(k_at - k[0].pointer as usize).unwrap();
    assert_eq!(kok.len(), 3);
    assert_eq!(kok[0].label, b"\0".to_vec());
    assert_eq!((kok[0].is_terminal, kok[0].pointer), (true, 1));
    assert_eq!(kok[1].label, b"in".to_vec());
    assert!(!kok[1].is_terminal);
    assert_eq!(kok[2].label, b"ot\0".to_vec());
    assert_eq!((kok[2].is_terminal, kok[2].pointer), (true, 4));
}

#[test]
fn single_key_record_bytes() {
    let keys = vec![key("x")];
    let (buf, root) = build(&keys);
    assert_eq!(root, 0);
    // header: 00000000 1 01111000 00 0001, one zero bit to the byte boundary;
    // then the pointer 1 in one byte; then the label byte after the first
    assert_eq!(buf, vec![0x00, 0xbc, 0x02, 0x01, 0x00]);
    let trie = Trie::new(&buf, 0);
    let edges = trie.read_record(0).unwrap();
    assert_eq!(edges.len(), 1);
    assert!(edges[0].is_terminal);
    assert_eq!(edges[0].pointer, 1);
    assert_eq!(edges[0].label, b"x\0".to_vec());
    assert_eq!(pairs(&trie.entries().unwrap()), numbered(&keys));
}

#[test]
fn long_edges_get_phantom_nodes() {
    // 17 keys, key i made of 16 + i equal letters: every edge from the root
    // is longer than 16 bytes
    let mut keys = Vec::new();
    for i in 0..17usize {
        let mut k = vec![b'a' + i as u8; 16 + i];
        k.push(0);
        keys.push(k);
    }
    let (buf, root) = build(&keys);
    let trie = Trie::new(&buf, root as usize);
    assert_eq!(pairs(&trie.entries().unwrap()), numbered(&keys));

    let mut all = Vec::new();
    records(&trie, root as usize, &mut all);
    // the root, and for a key of L bytes ceil(L / 16) - 1 nodes more
    let extra: usize = keys.iter().map(|k| (k.len() + 15) / 16 - 1).sum();
    assert_eq!(all.len(), 1 + extra);
    for (_, edges) in &all {
        for e in edges {
            assert!(1 <= e.label.len() && e.label.len() <= 16);
        }
    }
    let top = &all[0].1;
    assert_eq!(top.len(), 17);
    assert!(top.iter().all(|e| !e.is_terminal && e.label.len() == 16));
}

#[test]
fn no_keys_give_an_empty_buffer() {
    let t = TrieBuilder::new();
    let (buf, root) = t.finish().unwrap();
    assert!(buf.is_empty());
    assert_eq!(root, 0);
    let trie = Trie::new(&buf, root as usize);
    assert!(trie.entries().unwrap().is_empty());
    assert_eq!(trie.traverse(root as usize, Vec::new()), Ok(Vec::new()));
}

#[test]
fn an_empty_buffer_holds_no_key_wherever_the_walk_starts() {
    let none: [u8; 0] = [];
    let trie = Trie::new(&none, 0);
    assert_eq!(trie.traverse(0, Vec::new()), Ok(Vec::new()));
    assert_eq!(trie.traverse(7, b"ab".to_vec()), Ok(Vec::new()));
    assert_eq!(Trie::new(&none, 3).entries(), Ok(Vec::new()));
    // reading a record is another matter: there is none
    assert_eq!(trie.read_record(0), Err(ReadError::Truncated));
}

#[test]
fn three_hundred_keys_point_back() {
    let keys: Vec<Vec<u8>> = (0..300).map(|i| key(&format!("key{:03}", i))).collect();
    let (buf, root) = build(&keys);
    let trie = Trie::new(&buf, root as usize);
    let found = trie.entries().unwrap();
    assert_eq!(found.len(), 300);
    assert_eq!(pairs(&found), numbered(&keys));

    let mut all = Vec::new();
    records(&trie, root as usize, &mut all);
    let mut internal = 0;
    for (at, edges) in &all {
        for e in edges {
            if !e.is_terminal {
                internal += 1;
                assert!(e.pointer > 0);
                assert!((e.pointer as usize) <= *at);
            }
        }
    }
    assert!(internal > 0);
}

#[test]
fn out_of_order_key_is_refused_for_good() {
    let mut t = TrieBuilder::new();
    assert_eq!(t.add(key("b")), Ok(1));
    assert_eq!(t.add(key("a")), Err(BuildError::OutOfOrderKey));
    assert_eq!(t.add(key("c")), Err(BuildError::OutOfOrderKey));
    assert_eq!(t.finish(), Err(BuildError::OutOfOrderKey));
}

#[test]
fn prefix_keys_are_refused() {
    let mut t = TrieBuilder::new();
    assert_eq!(t.add(b"ab".to_vec()), Ok(1));
    assert_eq!(t.add(b"abc".to_vec()), Err(BuildError::PrefixKey));

    let mut t = TrieBuilder::new();
    assert_eq!(t.add(b"abc".to_vec()), Ok(1));
    assert_eq!(t.add(b"ab".to_vec()), Err(BuildError::PrefixKey));

    let mut t = TrieBuilder::new();
    assert_eq!(t.add(key("a")), Ok(1));
    assert_eq!(t.add(key("a")), Err(BuildError::PrefixKey));

    let mut t = TrieBuilder::new();
    assert_eq!(t.add(Vec::new()), Err(BuildError::PrefixKey));
}

#[test]
fn truncated_buffer_is_refused() {
    let keys = vec![key("kok"), key("kokot"), key("kuk")];
    let (buf, root) = build(&keys);
    for cut in 0..buf.len() {
        let short = &buf[..cut];
        let trie = Trie::new(short, root as usize);
        if cut == 0 {
            assert!(trie.entries().unwrap().is_empty());
        } else {
            assert_eq!(trie.entries().err(), Some(ReadError::Truncated));
        }
    }
}

#[test]
fn pointer_that_does_not_point_back_is_refused() {
    // one internal child whose pointer is zero:
    // header 00000000 0 01100001 00 0000 + pad, pointer 0
    let zero = vec![0x00, 0x30, 0x80, 0x00];
    let trie = Trie::new(&zero, 0);
    assert_eq!(trie.entries().err(), Some(ReadError::BadOffset));
    // the same with the pointer 5, larger than the record's offset 0
    let far = vec![0x00, 0x30, 0x80, 0x05];
    let trie = Trie::new(&far, 0);
    assert_eq!(trie.entries().err(), Some(ReadError::BadOffset));
}

/// A small generator of pseudo-random numbers, the same on every run.
struct Lcg(u64);

impl Lcg {
    fn next(&mut self) -> u64 {
        self.0 = self.0.wrapping_mul(6364136223846793005).wrapping_add(1442695040888963407);
        self.0 >> 33
    }
}

#[test]
fn random_key_sets_round_trip() {
    let mut rng = Lcg(7);
    for round in 0..40 {
        let n = (rng.next() % 400) as usize;
        let alphabet = 1 + (rng.next() % 5) as u8;
        let longest = 1 + (rng.next() % if round % 4 == 0 { 80 } else { 12 }) as usize;
        let mut keys: Vec<Vec<u8>> = Vec::new();
        for _ in 0..n {
            let len = 1 + (rng.next() as usize) % longest;
            let mut k: Vec<u8> = (0..len)
                .map(|_| b'a' + (rng.next() % alphabet as u64) as u8)
                .collect();
            k.push(0);
            keys.push(k);
        }
        keys.sort();
        keys.dedup();

        let (buf, root) = build(&keys);
        let trie = Trie::new(&buf, root as usize);
        assert_eq!(pairs(&trie.entries().unwrap()), numbered(&keys));

        if !keys.is_empty() {
            let mut all = Vec::new();
            records(&trie, root as usize, &mut all);
            for (at, edges) in &all {
                assert!(1 <= edges.len() && edges.len() <= 256);
                for e in edges {
                    assert!(1 <= e.label.len() && e.label.len() <= 16);
                    assert!(e.pointer > 0);
                    if !e.is_terminal {
                        assert!((e.pointer as usize) <= *at);
                    }
                }
                // the first bytes of the labels ascend
                for pair in edges.windows(2) {
                    assert!(pair[0].label[0] < pair[1].label[0]);
                }
            }
        }
    }
}

#[test]
fn a_chain_of_nested_keys() {
    // "a\0", "aa\0", "aaa\0", ...: every node has the key and the rest below it
    let keys: Vec<Vec<u8>> = (1..=60)
        .rev()
        .map(|n| {
            let mut k = vec![b'a'; n];
            k.push(0);
            k
        })
        .rev()
        .collect();
    let (buf, root) = build(&keys);
    let trie = Trie::new(&buf, root as usize);
    assert_eq!(pairs(&trie.entries().unwrap()), numbered(&keys));
}
