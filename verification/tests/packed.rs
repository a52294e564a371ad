use sparse_merkle::memory::MemoryHost;
use sparse_merkle::merkle::Merkle;
use sparse_merkle::packed::{is_empty, is_leaf, IS_EMPTY_BIT, IS_NODE_BIT};

#[test]
fn the_flags() {
    assert_eq!(IS_NODE_BIT, 0b1000000 << 56);
    assert_eq!(IS_EMPTY_BIT, 0b100000 << 56);
    assert!(is_leaf(0));
    assert!(is_leaf(IS_EMPTY_BIT));
    assert!(!is_leaf(IS_NODE_BIT));
    assert!(!is_leaf(IS_NODE_BIT | 5));
    assert!(is_empty(0));
    assert!(is_empty(IS_NODE_BIT));
    assert!(!is_empty(IS_EMPTY_BIT));
    assert!(!is_empty(u64::MAX));
}

#[test]
fn get_u64_on_a_fresh_tree_is_zero() {
    let mut host = MemoryHost::new();
    let mut m = Merkle::new();
    assert_eq!(m.smt_get_u64(&mut host, 0), 0);
    assert_eq!(m.smt_get_u64(&mut host, 12345), 0);
    assert_eq!(m.smt_get_u64(&mut host, u64::MAX), 0);
}

#[test]
fn set_u64_then_get_u64() {
    let mut host = MemoryHost::new();
    let mut m = Merkle::new();
    m.smt_set_u64(&mut host, 7, 70);
    assert_eq!(m.smt_get_u64(&mut host, 7), 70);
    assert_eq!(m.smt_get_u64(&mut host, 8), 0);
    assert_eq!(m.smt_get_u64(&mut host, 0x1_0000_0007), 0);
}

#[test]
fn key_zero_and_value_zero() {
    let mut host = MemoryHost::new();
    let mut m = Merkle::new();
    m.smt_set_u64(&mut host, 0, 5);
    assert_eq!(m.smt_get_u64(&mut host, 0), 5);
    m.smt_set_u64(&mut host, 1, 0);
    assert_eq!(m.smt_get_u64(&mut host, 1), 0);
    let mut leaf = [0u64; 4];
    m.get_simple(&mut host, 1, &mut leaf);
    assert_eq!(leaf, [1, 0, 0, IS_EMPTY_BIT]);
}

#[test]
fn set_u64_twice_keeps_the_second_value() {
    let mut host = MemoryHost::new();
    let mut m = Merkle::new();
    m.smt_set_u64(&mut host, 7, 70);
    let first = m.root;
    m.smt_set_u64(&mut host, 7, 71);
    assert_ne!(m.root, first);
    assert_eq!(m.smt_get_u64(&mut host, 7), 71);
    assert_eq!(Merkle::load(first).smt_get_u64(&mut host, 7), 70);
}

#[test]
fn a_written_slot_holds_key_value_and_flag() {
    let mut host = MemoryHost::new();
    let mut m = Merkle::new();
    m.smt_set_u64(&mut host, 0x0000_0005_0000_0009, 33);
    let mut leaf = [0u64; 4];
    m.get_simple(&mut host, 9, &mut leaf);
    assert_eq!(leaf, [0x0000_0005_0000_0009, 33, 0, IS_EMPTY_BIT]);
    // every other slot is as it was
    for slot in [0u32, 5, 8, 10, u32::MAX] {
        m.get_simple(&mut host, slot, &mut leaf);
        assert_eq!(leaf, [0, 0, 0, 0]);
    }
    m.get_simple(&mut host, 9, &mut leaf);
    assert!(is_leaf(leaf[3]));
    assert!(!is_empty(leaf[3]));
    m.smt_set_u64(&mut host, 0x0000_0005_0000_0009, 34);
    m.get_simple(&mut host, 9, &mut leaf);
    assert_eq!(leaf, [0x0000_0005_0000_0009, 34, 0, IS_EMPTY_BIT]);
}

#[test]
fn two_keys_with_one_low_half_are_both_kept() {
    let mut host = MemoryHost::new();
    let mut m = Merkle::new();
    let one = 0x0000_0001_0000_0009u64;
    let other = 0x0000_0002_0000_0009u64;
    m.smt_set_u64(&mut host, one, 11);
    m.smt_set_u64(&mut host, other, 22);
    assert_eq!(m.smt_get_u64(&mut host, one), 11);
    assert_eq!(m.smt_get_u64(&mut host, other), 22);
    assert_eq!(m.smt_get_u64(&mut host, 0x0000_0003_0000_0009), 0);
    assert_eq!(m.smt_get_u64(&mut host, 9), 0);
    // the slot holds the root of a sub-tree, with the node flag
    let mut leaf = [0u64; 4];
    m.get_simple(&mut host, 9, &mut leaf);
    assert!(!is_leaf(leaf[3]));
    let mut sub_root = leaf;
    sub_root[3] &= !IS_NODE_BIT;
    assert!(host.knows(&sub_root));
    let mut sub = Merkle::load(sub_root);
    sub.get_simple(&mut host, 1, &mut leaf);
    assert_eq!(leaf, [one, 11, 0, IS_EMPTY_BIT]);
    sub.get_simple(&mut host, 2, &mut leaf);
    assert_eq!(leaf, [other, 22, 0, IS_EMPTY_BIT]);
    for slot in [0u32, 3, 9, u32::MAX] {
        sub.get_simple(&mut host, slot, &mut leaf);
        assert_eq!(leaf, [0, 0, 0, 0]);
        if slot != 9 {
            m.get_simple(&mut host, slot, &mut leaf);
            assert_eq!(leaf, [0, 0, 0, 0]);
        }
    }
    // a third key goes into the same sub-tree, and a value in it is replaced
    m.smt_set_u64(&mut host, 9, 33);
    m.smt_set_u64(&mut host, one, 12);
    assert_eq!(m.smt_get_u64(&mut host, 9), 33);
    assert_eq!(m.smt_get_u64(&mut host, one), 12);
    assert_eq!(m.smt_get_u64(&mut host, other), 22);
}

#[test]
fn many_u64_keys() {
    let mut host = MemoryHost::new();
    let mut m = Merkle::new();
    for i in 0..60u64 {
        let key = ((i % 7) << 32) | (i % 5);
        m.smt_set_u64(&mut host, key, i + 100);
    }
    for i in 25..60u64 {
        let key = ((i % 7) << 32) | (i % 5);
        assert_eq!(m.smt_get_u64(&mut host, key), i + 100);
    }
    assert_eq!(m.smt_get_u64(&mut host, (7 << 32) | 1), 0);
}

#[test]
fn the_local_u64_functions_work_at_level_one() {
    let mut host = MemoryHost::new();
    let mut m = Merkle::new();
    let key = 0x0000_0004_0000_0009u64;
    m.smt_set_local_u64(&mut host, key, 1, 44);
    assert_eq!(m.smt_get_local_u64(&mut host, key, 1), 44);
    let mut leaf = [0u64; 4];
    m.get_simple(&mut host, 4, &mut leaf);
    assert_eq!(leaf, [key, 44, 0, IS_EMPTY_BIT]);
}
