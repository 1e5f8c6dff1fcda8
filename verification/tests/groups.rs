use static_trie::{Groups, TrieBuilder, TrieNode};

fn key(s: &str) -> Vec<u8> {
    let mut k = s.as_bytes().to_vec();
    k.push(0);
    k
}

fn six() -> Vec<(Vec<u8>, u32)> {
    vec![
        (key("kok"), 5),
        (key("kokinko"), 1),
        (key("kokino"), 1),
        (key("kokot"), 1),
        (key("kroketa"), 7),
        (key("kuk"), 2),
    ]
}

fn groups_of(
    words: &[(Vec<u8>, u32)],
    num_groups: usize,
    num_occurrences: usize,
) -> (Vec<u16>, u16) {
    let mut t = TrieBuilder::with_groups(num_groups, words.len(), num_occurrences);
    for (w, f) in words {
        t.add_with_frequency(w.clone(), *f).unwrap();
    }
    let (_, _, groups) = t.finish_with_groups().unwrap();
    assert!(!groups.failed());
    (groups.group_map().clone(), groups.group_id())
}

#[test]
fn frequent_keys_make_groups_of_their_own() {
    // 17 / 5 = 3: "kok" (5) and "kroketa" (7) are groups of their own; the
    // node of "k" gathers the rest, which occur 5 times together
    assert_eq!(groups_of(&six(), 5, 17), (vec![0, 1, 3, 3, 3, 2, 3], 4));
}

#[test]
fn one_group_for_rare_keys() {
    assert_eq!(groups_of(&six(), 1, 17), (vec![0, 1, 1, 1, 1, 1, 1], 1));
}

#[test]
fn many_small_groups() {
    assert_eq!(groups_of(&six(), 17, 17), (vec![0, 1, 2, 2, 5, 3, 4], 5));
}

#[test]
fn groups_of_three_hundred_keys() {
    let words: Vec<(Vec<u8>, u32)> =
        (0..300u32).map(|i| (key(&format!("key{:03}", i)), (i * 7) % 13)).collect();
    let total: u32 = words.iter().map(|w| w.1).sum();
    let (map, last) = groups_of(&words, 40, total as usize);
    assert_eq!(last, 31);
    assert_eq!(&map[..12], &[0, 1, 1, 1, 1, 1, 1, 1, 1, 1, 1, 2]);
    assert_eq!(&map[290..], &[29, 30, 30, 30, 30, 30, 30, 30, 30, 30, 30]);
}

#[test]
fn groups_do_not_change_the_trie() {
    let mut plain = TrieBuilder::new();
    let mut grouped = TrieBuilder::with_groups(5, 6, 17);
    for (w, f) in six() {
        assert_eq!(plain.add(w.clone()), grouped.add_with_frequency(w, f));
    }
    let (bytes, root, _) = grouped.finish_with_groups().unwrap();
    assert_eq!(plain.finish(), Ok((bytes, root)));
}

#[test]
fn create_group_tags_the_node_and_what_it_gathered() {
    let mut g = Groups::new(5);
    assert_eq!(g.group_map(), &vec![0, 0, 0, 0, 0, 0]);
    let mut node = TrieNode::new(1, 4, b"a".to_vec(), true);
    node.frequency = 9;
    node.children_not_yet_tagged = vec![(2, 1), (5, 3)];
    g.create_group(&mut node);
    assert_eq!(g.group_id(), 1);
    assert_eq!(g.group_map(), &vec![0, 0, 1, 0, 1, 1]);
    assert!(node.children_not_yet_tagged.is_empty());
    assert_eq!(node.frequency, 9);

    // a node that is no key, with nothing gathered: an empty group
    let mut fork = TrieNode::new(0, 0, Vec::new(), false);
    g.create_group(&mut fork);
    assert_eq!(g.group_id(), 2);
    assert_eq!(g.group_map(), &vec![0, 0, 1, 0, 1, 1]);
    assert!(!g.failed());

    // a term id beyond the map
    let mut far = TrieNode::new(1, 6, b"b".to_vec(), true);
    g.create_group(&mut far);
    assert_eq!(g.group_id(), 3);
    assert!(g.failed());
}

#[test]
fn assign_group_gathers_rare_children() {
    let mut g = Groups::new(4);
    let mut node = TrieNode::new(0, 0, Vec::new(), false);
    node.frequency = 1;
    node.children_not_yet_tagged = vec![(4, 1)];
    let mut a = TrieNode::new(1, 1, b"a".to_vec(), true);
    a.frequency = 2;
    let mut b = TrieNode::new(1, 0, b"b".to_vec(), false);
    b.frequency = 6;
    b.children_not_yet_tagged = vec![(2, 6)];
    let mut c = TrieNode::new(1, 0, b"c".to_vec(), false);
    c.frequency = 3;
    c.children_not_yet_tagged = vec![(3, 3)];
    node.children.push(a);
    node.children.push(b);
    node.children.push(c);

    g.assign_group(&mut node, 5);
    // "b" occurs more than 5 times: a group of its own
    assert_eq!(g.group_id(), 1);
    assert_eq!(g.group_map(), &vec![0, 0, 1, 0, 0]);
    assert!(node.children[1].children_not_yet_tagged.is_empty());
    // the others are gathered
    assert_eq!(node.frequency, 1 + 2 + 3);
    assert_eq!(node.children_not_yet_tagged, vec![(4, 1), (1, 2), (3, 3)]);
    assert_eq!(node.children[2].children_not_yet_tagged, vec![(3, 3)]);
    assert!(!g.failed());
}

#[test]
fn assign_group_records_a_sum_that_does_not_fit() {
    let mut g = Groups::new(2);
    let mut node = TrieNode::new(0, 0, Vec::new(), false);
    let mut a = TrieNode::new(1, 1, b"a".to_vec(), true);
    a.frequency = u32::MAX;
    let mut b = TrieNode::new(1, 2, b"b".to_vec(), true);
    b.frequency = 1;
    node.children.push(a);
    node.children.push(b);
    g.assign_group(&mut node, u32::MAX);
    assert_eq!(node.frequency, u32::MAX);
    assert!(g.failed());
    assert_eq!(g.group_id(), 0);
}

#[test]
fn builder_methods_for_groups() {
    let mut t = TrieBuilder::with_groups(1, 3, 3);
    let mut node = TrieNode::new(0, 0, Vec::new(), false);
    let mut a = TrieNode::new(1, 1, b"a".to_vec(), true);
    a.frequency = 4;
    let mut b = TrieNode::new(1, 2, b"b".to_vec(), true);
    b.frequency = 1;
    node.children.push(a);
    node.children.push(b);
    t.assign_group(&mut node, 3);
    assert_eq!(node.frequency, 1);
    assert_eq!(node.children_not_yet_tagged, vec![(2, 1)]);
    t.create_group(&mut node);
    let (bytes, root, groups) = t.finish_with_groups().unwrap();
    assert!(bytes.is_empty());
    assert_eq!(root, 0);
    assert_eq!(groups.group_map(), &vec![0, 1, 2, 0]);
    // one more group, made by the root at the end
    assert_eq!(groups.group_id(), 3);
}

#[test]
fn groups_without_keys() {
    let t = TrieBuilder::with_groups(3, 4, 9);
    let (bytes, root, groups) = t.finish_with_groups().unwrap();
    assert!(bytes.is_empty());
    assert_eq!(root, 0);
    // the root makes one group, which is empty
    assert_eq!(groups.group_id(), 1);
    assert_eq!(groups.group_map(), &vec![0, 0, 0, 0, 0]);
    assert!(!groups.failed());

    let t = TrieBuilder::new();
    let (_, _, groups) = t.finish_with_groups().unwrap();
    assert_eq!(groups.group_id(), 0);
    assert_eq!(groups.group_map(), &vec![0]);
}
