use sparse_merkle::memory::MemoryHost;
use sparse_merkle::merkle::Merkle;
use sparse_merkle::smt::{data_matches_key, set_smt_data, LEAF_NODE, TREE_NODE};

fn read(m: &mut Merkle, host: &mut MemoryHost, key: &[u64; 4]) -> Vec<u64> {
    let mut data = vec![99u64];
    let len = m.smt_get(host, key, &mut data);
    assert_eq!(len, data.len() as u64);
    data
}

#[test]
fn node_tags() {
    assert_eq!(LEAF_NODE, 0);
    assert_eq!(TREE_NODE, 1);
}

#[test]
fn data_matches_key_compares_the_four_words_after_the_tag() {
    assert!(data_matches_key(&[0, 1, 2, 3, 4, 9, 9], &[1, 2, 3, 4]));
    assert!(data_matches_key(&[7, 1, 2, 3, 4], &[1, 2, 3, 4, 5]));
    assert!(!data_matches_key(&[0, 1, 2, 3, 5], &[1, 2, 3, 4]));
    assert!(!data_matches_key(&[0, 0, 2, 3, 4], &[1, 2, 3, 4]));
}

#[test]
fn set_smt_data_writes_tag_key_and_data() {
    let mut buf = vec![5u64; 9];
    set_smt_data(&mut buf, LEAF_NODE, &[1, 2, 3, 4], &[10, 11]);
    assert_eq!(buf, vec![0, 1, 2, 3, 4, 10, 11, 5, 5]);
    set_smt_data(&mut buf, TREE_NODE, &[6, 7, 8, 9], &[]);
    assert_eq!(buf, vec![1, 6, 7, 8, 9, 10, 11, 5, 5]);
    let mut nines = vec![9u64; 8];
    set_smt_data(&mut nines, 1, &[1, 2, 3, 4], &[7, 8]);
    assert_eq!(nines, vec![1, 1, 2, 3, 4, 7, 8, 9]);
    let mut exact = vec![9u64; 5];
    set_smt_data(&mut exact, 7, &[1, 2, 3, 4, 5], &[]);
    assert_eq!(exact, vec![7, 1, 2, 3, 4]);
}

#[test]
fn get_on_a_fresh_tree_misses() {
    let mut host = MemoryHost::new();
    let mut m = Merkle::new();
    assert!(read(&mut m, &mut host, &[0, 0, 0, 0]).is_empty());
    assert!(read(&mut m, &mut host, &[1, 2, 3, 4]).is_empty());
    assert!(read(&mut m, &mut host, &[u64::MAX; 4]).is_empty());
}

#[test]
fn set_then_get_returns_the_value() {
    let mut host = MemoryHost::new();
    let mut m = Merkle::new();
    m.smt_set(&mut host, &[1, 2, 3, 4], &[10, 20, 30]);
    // the slot of the key holds the leaf node, every other slot nothing
    let mut node = Vec::new();
    let mut hash = [0u64; 4];
    assert_eq!(m.get(&mut host, 1, &mut node, &mut hash, true), 8);
    assert_eq!(node, vec![LEAF_NODE, 1, 2, 3, 4, 10, 20, 30]);
    assert_eq!(m.get(&mut host, 2, &mut node, &mut hash, true), 0);
    assert_eq!(m.get(&mut host, 0, &mut node, &mut hash, true), 0);
    assert_eq!(read(&mut m, &mut host, &[1, 2, 3, 4]), vec![10, 20, 30]);
    assert!(read(&mut m, &mut host, &[1, 2, 3, 5]).is_empty());
    assert!(read(&mut m, &mut host, &[2, 2, 3, 4]).is_empty());
}

#[test]
fn an_empty_value_reads_as_length_zero() {
    let mut host = MemoryHost::new();
    let mut m = Merkle::new();
    m.smt_set(&mut host, &[1, 2, 3, 4], &[]);
    let mut data = vec![1u64];
    assert_eq!(m.smt_get(&mut host, &[1, 2, 3, 4], &mut data), 0);
    assert!(data.is_empty());
}

#[test]
fn set_twice_keeps_the_second_value() {
    let mut host = MemoryHost::new();
    let mut m = Merkle::new();
    m.smt_set(&mut host, &[1, 2, 3, 4], &[10]);
    let first = m.root;
    m.smt_set(&mut host, &[1, 2, 3, 4], &[11, 12]);
    assert_ne!(m.root, first);
    assert_eq!(read(&mut m, &mut host, &[1, 2, 3, 4]), vec![11, 12]);
    assert_eq!(read(&mut Merkle::load(first), &mut host, &[1, 2, 3, 4]), vec![10]);
}

#[test]
fn two_keys_in_one_slot_are_both_kept() {
    let mut host = MemoryHost::new();
    let mut m = Merkle::new();
    let one = [0x0000_0001_0000_0007u64, 0, 0, 0];
    let other = [0x0000_0002_0000_0007u64, 0, 0, 0];
    m.smt_set(&mut host, &one, &[1]);
    m.smt_set(&mut host, &other, &[2, 2]);
    assert_eq!(read(&mut m, &mut host, &one), vec![1]);
    assert_eq!(read(&mut m, &mut host, &other), vec![2, 2]);
    assert!(read(&mut m, &mut host, &[0x0000_0003_0000_0007, 0, 0, 0]).is_empty());
    // the slot now holds a tree node
    let mut node = Vec::new();
    let mut hash = [0u64; 4];
    assert_eq!(m.get(&mut host, 7, &mut node, &mut hash, true), 5);
    assert_eq!(node[0], TREE_NODE);
    assert!(host.knows(&[node[1], node[2], node[3], node[4]]));
    // the sub-tree holds the two leaf nodes and nothing else
    let mut sub = Merkle::load([node[1], node[2], node[3], node[4]]);
    assert_eq!(sub.get(&mut host, 1, &mut node, &mut hash, true), 6);
    assert_eq!(node, vec![LEAF_NODE, 0x0000_0001_0000_0007, 0, 0, 0, 1]);
    assert_eq!(sub.get(&mut host, 2, &mut node, &mut hash, true), 7);
    assert_eq!(node, vec![LEAF_NODE, 0x0000_0002_0000_0007, 0, 0, 0, 2, 2]);
    assert_eq!(sub.get(&mut host, 3, &mut node, &mut hash, true), 0);
    assert_eq!(sub.get(&mut host, 7, &mut node, &mut hash, true), 0);
}

#[test]
fn two_keys_that_differ_in_the_last_segment_only() {
    let mut host = MemoryHost::new();
    let mut m = Merkle::new();
    let one = [5u64, 6, 7, 0x0000_0001_0000_0008];
    let other = [5u64, 6, 7, 0x0000_0002_0000_0008];
    m.smt_set(&mut host, &one, &[1]);
    m.smt_set(&mut host, &other, &[2]);
    assert_eq!(read(&mut m, &mut host, &one), vec![1]);
    assert_eq!(read(&mut m, &mut host, &other), vec![2]);
    m.smt_set(&mut host, &one, &[3, 3, 3]);
    assert_eq!(read(&mut m, &mut host, &one), vec![3, 3, 3]);
    assert_eq!(read(&mut m, &mut host, &other), vec![2]);
    // seven tree nodes lead down to the two leaves
    let mut tree = Merkle::load(m.root);
    for level in 0..7usize {
        let word = one[level / 2];
        let slot = (word >> (32 * (level % 2))) as u32;
        let mut node = Vec::new();
        let mut hash = [0u64; 4];
        assert_eq!(tree.get(&mut host, slot, &mut node, &mut hash, true), 5);
        assert_eq!(node[0], TREE_NODE);
        tree = Merkle::load([node[1], node[2], node[3], node[4]]);
    }
    let mut node = Vec::new();
    let mut hash = [0u64; 4];
    assert_eq!(tree.get(&mut host, 1, &mut node, &mut hash, true), 8);
    assert_eq!(node, vec![LEAF_NODE, 5, 6, 7, 0x0000_0001_0000_0008, 3, 3, 3]);
    assert_eq!(tree.get(&mut host, 2, &mut node, &mut hash, true), 6);
    assert_eq!(node, vec![LEAF_NODE, 5, 6, 7, 0x0000_0002_0000_0008, 2]);
}

#[test]
fn many_keys() {
    let mut host = MemoryHost::new();
    let mut m = Merkle::new();
    for i in 0..40u64 {
        let key = [i % 4, i % 3, i, i / 2];
        m.smt_set(&mut host, &key, &[i, i + 1]);
    }
    for i in 0..40u64 {
        let key = [i % 4, i % 3, i, i / 2];
        assert_eq!(read(&mut m, &mut host, &key), vec![i, i + 1]);
    }
    assert!(read(&mut m, &mut host, &[0, 0, 40, 20]).is_empty());
}

#[test]
fn the_local_functions_work_at_a_lower_level() {
    let mut host = MemoryHost::new();
    let mut m = Merkle::new();
    let key = [0x0000_0009_0000_0001u64, 0, 0, 0];
    m.smt_set_local(&mut host, &key, 1, &[4]);
    let mut data = Vec::new();
    assert_eq!(m.smt_get_local(&mut host, &key, 1, &mut data), 1);
    assert_eq!(data, vec![4]);
    // at level 1 the key stands in the slot of its second segment
    let mut node = Vec::new();
    let mut hash = [0u64; 4];
    assert_eq!(m.get(&mut host, 9, &mut node, &mut hash, true), 6);
    assert_eq!(node, vec![LEAF_NODE, 0x0000_0009_0000_0001, 0, 0, 0, 4]);
}

#[test]
fn two_trees_in_one_host() {
    let mut host = MemoryHost::new();
    let mut a = Merkle::new();
    let mut b = Merkle::new();
    a.smt_set(&mut host, &[1, 1, 1, 1], &[1]);
    b.smt_set(&mut host, &[1, 1, 1, 1], &[2]);
    b.smt_set(&mut host, &[2, 2, 2, 2], &[3]);
    assert_eq!(read(&mut a, &mut host, &[1, 1, 1, 1]), vec![1]);
    assert!(read(&mut a, &mut host, &[2, 2, 2, 2]).is_empty());
    assert_eq!(read(&mut b, &mut host, &[1, 1, 1, 1]), vec![2]);
    assert_eq!(read(&mut b, &mut host, &[2, 2, 2, 2]), vec![3]);
}
