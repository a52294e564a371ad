use sparse_merkle::host::Host;
use sparse_merkle::memory::{same_words, MemoryHost};
use sparse_merkle::merkle::Merkle;

const EMPTY_ROOT: [u64; 4] = [
    14789582351289948625,
    10919489180071018470,
    10309858136294505219,
    2839580074036780766,
];

#[test]
fn new_attaches_to_the_empty_tree() {
    let m = Merkle::new();
    assert_eq!(m.root, EMPTY_ROOT);
}

#[test]
fn load_keeps_the_root() {
    let m = Merkle::load([1, 2, 3, 4]);
    assert_eq!(m.root, [1, 2, 3, 4]);
}

#[test]
fn fresh_host_knows_only_the_empty_tree() {
    let host = MemoryHost::new();
    assert!(host.knows(&EMPTY_ROOT));
    assert!(!host.knows(&[1, 0, 0, 0]));
    assert!(!host.knows(&[0, 0, 0, 0]));
}

#[test]
fn get_simple_on_empty_tree_reads_zero() {
    let mut host = MemoryHost::new();
    let mut m = Merkle::new();
    let mut leaf = [7u64; 4];
    m.get_simple(&mut host, 0, &mut leaf);
    assert_eq!(leaf, [0, 0, 0, 0]);
    m.get_simple(&mut host, u32::MAX, &mut leaf);
    assert_eq!(leaf, [0, 0, 0, 0]);
    assert_eq!(m.root, EMPTY_ROOT);
}

#[test]
fn set_simple_then_get_simple() {
    let mut host = MemoryHost::new();
    let mut m = Merkle::new();
    m.set_simple(&mut host, 5, &[1, 2, 3, 4], None);
    assert_ne!(m.root, EMPTY_ROOT);
    assert!(host.knows(&m.root));
    let mut leaf = [0u64; 4];
    m.get_simple(&mut host, 5, &mut leaf);
    assert_eq!(leaf, [1, 2, 3, 4]);
    m.get_simple(&mut host, 6, &mut leaf);
    assert_eq!(leaf, [0, 0, 0, 0]);
}

#[test]
fn a_write_leaves_the_old_tree_as_it_was() {
    let mut host = MemoryHost::new();
    let mut m = Merkle::new();
    m.set_simple(&mut host, 5, &[1, 2, 3, 4], None);
    let first = m.root;
    m.set_simple(&mut host, 5, &[9, 9, 9, 9], None);
    assert_ne!(m.root, first);
    let mut leaf = [0u64; 4];
    Merkle::load(first).get_simple(&mut host, 5, &mut leaf);
    assert_eq!(leaf, [1, 2, 3, 4]);
    Merkle::new().get_simple(&mut host, 5, &mut leaf);
    assert_eq!(leaf, [0, 0, 0, 0]);
    m.get_simple(&mut host, 5, &mut leaf);
    assert_eq!(leaf, [9, 9, 9, 9]);
}

#[test]
fn set_simple_with_the_right_hint() {
    let mut host = MemoryHost::new();
    let mut m = Merkle::new();
    m.set_simple(&mut host, 1, &[1, 1, 1, 1], Some(&[0, 0, 0, 0]));
    m.set_simple(&mut host, 1, &[2, 2, 2, 2], Some(&[1, 1, 1, 1]));
    let mut leaf = [0u64; 4];
    m.get_simple(&mut host, 1, &mut leaf);
    assert_eq!(leaf, [2, 2, 2, 2]);
}

#[test]
fn the_hash_is_the_same_for_the_same_payload() {
    let mut host = MemoryHost::new();
    let a = host.hash(&[1, 2, 3], true);
    let b = host.hash(&[1, 2, 4], true);
    let c = host.hash(&[1, 2, 3], false);
    let d = host.hash(&[], true);
    assert_eq!(host.hash(&[1, 2, 3], true), a);
    assert_eq!(host.hash(&[1, 2, 4], true), b);
    assert_ne!(a, b);
    assert_ne!(a, c);
    assert_ne!(a, d);
    assert_ne!(d, [0, 0, 0, 0]);
}

#[test]
fn the_cache_returns_what_was_stored_last() {
    let mut host = MemoryHost::new();
    assert!(host.fetch(&[1, 2, 3, 4]).is_empty());
    host.store(&[1, 2, 3, 4], &[7, 8]);
    host.store(&[4, 3, 2, 1], &[9]);
    assert_eq!(host.fetch(&[1, 2, 3, 4]), vec![7, 8]);
    host.store(&[1, 2, 3, 4], &[5]);
    assert_eq!(host.fetch(&[1, 2, 3, 4]), vec![5]);
    assert_eq!(host.fetch(&[4, 3, 2, 1]), vec![9]);
}

#[test]
fn the_exchange_goes_word_by_word() {
    let mut host = MemoryHost::new();
    host.address(9);
    for word in EMPTY_ROOT {
        host.present_root(word);
    }
    for word in [11u64, 12, 13, 14] {
        host.set(word);
    }
    let root = [host.root(), host.root(), host.root(), host.root()];
    assert!(host.knows(&root));
    assert!(root[3] < 0x4000_0000_0000_0000);
    host.address(9);
    for word in root {
        host.present_root(word);
    }
    assert_eq!([host.get(), host.get(), host.get(), host.get()], [11, 12, 13, 14]);
    assert_eq!([host.root(), host.root(), host.root(), host.root()], root);
}

#[test]
fn same_words_compares_by_content() {
    assert!(same_words(&[], &[]));
    assert!(same_words(&[1, 2], &[1, 2]));
    assert!(!same_words(&[1, 2], &[1, 3]));
    assert!(!same_words(&[1, 2], &[1, 2, 3]));
}

#[test]
fn set_simple_unsafe_after_a_read() {
    let mut host = MemoryHost::new();
    let mut m = Merkle::new();
    let mut leaf = [0u64; 4];
    m.get_simple(&mut host, 0xffff_ffff, &mut leaf);
    m.set_simple_unsafe(&mut host, 0xffff_ffff, &[4, 3, 2, 1]);
    m.get_simple(&mut host, 0xffff_ffff, &mut leaf);
    assert_eq!(leaf, [4, 3, 2, 1]);
}

#[test]
fn a_write_of_zeros_reads_as_an_empty_slot() {
    let mut host = MemoryHost::new();
    let mut m = Merkle::new();
    m.set_simple(&mut host, 5, &[1, 2, 3, 4], None);
    m.set_simple(&mut host, 5, &[0, 0, 0, 0], Some(&[1, 2, 3, 4]));
    let mut data = vec![1u64];
    let mut hash = [9u64; 4];
    assert_eq!(m.get(&mut host, 5, &mut data, &mut hash, true), 0);
    assert_eq!(hash, [0, 0, 0, 0]);
    assert!(data.is_empty());
}

#[test]
fn get_on_an_empty_slot_has_length_zero() {
    let mut host = MemoryHost::new();
    let mut m = Merkle::new();
    let mut data = vec![5u64, 6];
    let mut hash = [9u64; 4];
    assert_eq!(m.get(&mut host, 3, &mut data, &mut hash, true), 0);
    assert_eq!(hash, [0, 0, 0, 0]);
    assert!(data.is_empty());
}

#[test]
fn get_on_an_empty_slot_does_not_ask_the_cache() {
    let mut host = MemoryHost::new();
    let mut m = Merkle::new();
    host.store(&[0, 0, 0, 0], &[1]);
    let mut data = vec![5u64, 6];
    let mut hash = [9u64; 4];
    assert_eq!(m.get(&mut host, 3, &mut data, &mut hash, false), 0);
    assert_eq!(hash, [0, 0, 0, 0]);
    assert!(data.is_empty());
}

#[test]
fn set_then_get_returns_the_payload() {
    let mut host = MemoryHost::new();
    let mut m = Merkle::new();
    let payload = [10u64, 20, 30, 40, 50, 60, 70];
    m.set(&mut host, 3, &payload, true, None);
    let mut data = Vec::new();
    let mut hash = [0u64; 4];
    assert_eq!(m.get(&mut host, 3, &mut data, &mut hash, true), 7);
    assert_eq!(data, payload.to_vec());
    assert_eq!(hash, host.hash(&payload, true));
    assert_ne!(hash, [0, 0, 0, 0]);
}

#[test]
fn set_with_the_right_hint() {
    let mut host = MemoryHost::new();
    let mut m = Merkle::new();
    m.set(&mut host, 3, &[1, 2], false, Some(&[0, 0, 0, 0]));
    let held = host.hash(&[1, 2], false);
    m.set(&mut host, 3, &[3, 4], false, Some(&held));
    let mut data = Vec::new();
    let mut hash = [0u64; 4];
    assert_eq!(m.get(&mut host, 3, &mut data, &mut hash, false), 2);
    assert_eq!(data, vec![3, 4]);
}

#[test]
fn set_unsafe_after_a_read() {
    let mut host = MemoryHost::new();
    let mut m = Merkle::new();
    let mut leaf = [0u64; 4];
    m.get_simple(&mut host, 8, &mut leaf);
    m.set_unsafe(&mut host, 8, &[42], false);
    let mut data = Vec::new();
    let mut hash = [0u64; 4];
    assert_eq!(m.get(&mut host, 8, &mut data, &mut hash, false), 1);
    assert_eq!(data, vec![42]);
}

#[test]
fn a_payload_stored_again_is_read_again() {
    let mut host = MemoryHost::new();
    let mut m = Merkle::new();
    m.set(&mut host, 3, &[1, 2, 3], true, None);
    let hash = host.hash(&[1, 2, 3], true);
    host.store(&hash, &[1, 2, 4]);
    host.store(&hash, &[1, 2, 3]);
    let mut data = Vec::new();
    let mut read = [0u64; 4];
    assert_eq!(m.get(&mut host, 3, &mut data, &mut read, true), 3);
    assert_eq!(read, hash);
    assert_eq!(data, vec![1, 2, 3]);
}

#[test]
fn require_returns_where_the_condition_holds() {
    let mut host = MemoryHost::new();
    host.require(true);
    assert!(host.knows(&EMPTY_ROOT));
}
