use binary_trie::BinaryTrie;

#[test]
fn it_works() {
    let mut btrie = BinaryTrie::new(4);
    btrie.insert(0b0001);
}

fn scenario_trie() -> BinaryTrie {
    let mut t = BinaryTrie::new(4);
    for &i in &[1, 1, 2, 3, 5, 8, 13] {
        t.insert(i);
    }
    t
}

#[test]
fn scenario_counts() {
    let t = scenario_trie();
    assert_eq!(t.count(1), 2);
    assert_eq!(t.count(2), 1);
    assert_eq!(t.count(5), 1);
    assert_eq!(t.count(4), 0);
    // asking for the full key width is the exact count
    assert_eq!(t.count_prefix(1, 4), t.count(1));
    for x in [0usize, 1, 7, 9, 15, 1000] {
        assert_eq!(t.count_prefix(x, 0), 7);
    }
}

#[test]
fn scenario_remove_to_zero_then_noop() {
    let mut t = scenario_trie();
    t.remove(1);
    assert_eq!(t.count(1), 1);
    t.remove(1);
    assert_eq!(t.count(1), 0);
    // the path still exists with a zero leaf count: removing again is a
    // no-op that leaves the whole structure alone
    let shape = t.dump();
    t.remove(1);
    assert_eq!(t.count(1), 0);
    assert_eq!(t.dump(), shape);
    assert_eq!(t.count_prefix(1, 0), 5);
    assert!(!t.contains(1));
    assert!(t.contains(2));
}

#[test]
fn scenario_xor_relabels_queries() {
    let mut t = BinaryTrie::new(4);
    t.insert(5); // 0101
    t.xor_all(5);
    // querying 0 under mask 5 is querying 5 under mask 0
    assert_eq!(t.count(0), 1);
    assert_eq!(t.count(5), 0);
}

#[test]
fn scenario_msb_prefix() {
    let t = scenario_trie();
    // values with the same most significant bit as 8 (in 4 bits): 8 and 13
    assert_eq!(t.count_prefix(8, 1), 2);
    assert_eq!(t.count_prefix(0, 1), 5);
}

#[test]
fn fresh_trie_is_empty_everywhere() {
    let t = BinaryTrie::new(4);
    for k in 0..=4u32 {
        for x in [0usize, 3, 8, 15, usize::MAX] {
            assert_eq!(t.count_prefix(x, k), 0);
        }
    }
    assert_eq!(t.dump(), ": 0");
}

#[test]
fn xor_mask_is_self_inverse() {
    let mut t = scenario_trie();
    let before: Vec<usize> = (0..16).map(|x| t.count(x)).collect();
    let shape = t.dump();
    t.xor_all(9);
    // the stored tree itself is never rewritten by a mask change
    assert_eq!(t.dump(), shape);
    t.xor_all(9);
    assert_eq!(t.dump(), shape);
    let after: Vec<usize> = (0..16).map(|x| t.count(x)).collect();
    assert_eq!(before, after);
}

fn snapshot(t: &BinaryTrie) -> Vec<usize> {
    let mut v = Vec::new();
    for k in 0..=4u32 {
        for x in 0..16usize {
            v.push(t.count_prefix(x, k));
        }
    }
    v
}

#[test]
fn insert_then_remove_restores_counts() {
    let mut t = scenario_trie();
    let pre = snapshot(&t);
    t.insert(11);
    t.remove(11);
    assert_eq!(snapshot(&t), pre);
}

#[test]
fn count_tracks_net_insertions() {
    let mut t = BinaryTrie::new(6);
    // three insertions and one removal of the same key net out to two
    t.insert(42);
    t.insert(42);
    t.insert(42);
    t.remove(42);
    assert_eq!(t.count(42), 2);
    // a removal of an absent key changes nothing
    t.remove(17);
    assert_eq!(t.count(42), 2);
    assert_eq!(t.count_prefix(0, 0), 2);
}

#[test]
fn high_bits_are_ignored() {
    let mut t = BinaryTrie::new(4);
    t.insert(0x13); // low four bits are 0011
    assert_eq!(t.count(3), 1);
    assert_eq!(t.count(0x23), 1);
}

#[test]
fn full_width_keys() {
    let mut t = BinaryTrie::new(usize::BITS);
    t.insert(usize::MAX);
    t.insert(0);
    assert_eq!(t.count(usize::MAX), 1);
    assert_eq!(t.count(0), 1);
    assert_eq!(t.count_prefix(usize::MAX, 1), 1);
    assert_eq!(t.count_prefix(0, 0), 2);
}

#[test]
fn dump_renders_single_path() {
    let mut t = BinaryTrie::new(2);
    t.insert(0b10);
    assert_eq!(t.dump(), "10: 1");
}

#[test]
fn dump_renders_both_children_with_indent() {
    let mut t = BinaryTrie::new(1);
    t.insert(0);
    t.insert(1);
    assert_eq!(t.dump(), "0: 1\n1: 1");

    let mut u = BinaryTrie::new(2);
    u.insert(0b00);
    u.insert(0b01);
    assert_eq!(u.dump(), "00: 1\n 1: 1");
}

#[test]
fn dump_of_scenario() {
    let t = scenario_trie();
    // 1, 1, 2, 3 share the 00 prefix; 5 sits under 01; 8 and 13 under 1
    let expected = "0001: 2\n  10: 1\n   1: 1\n 101: 1\n1000: 1\n 101: 1";
    assert_eq!(t.dump(), expected);
}
