//! A host that keeps everything in memory. Its accumulator numbers the roots
//! it hands out, and its hash function numbers the payloads it has seen, so
//! that no two trees share a root and no two payloads a digest.

use crate::host::{
    empty_root, empty_tree, root_word_limit, slot_count, zero_words, Call, Exchange, Host, World,
};
use vstd::prelude::*;
use vstd::slice::slice_to_vec;

verus! {

/// The map that a log of writes leaves: each key with the value last
/// written under it.
pub open spec fn log_map<K, V>(log: Seq<(K, V)>) -> Map<K, V>
    decreases log.len(),
{
    if log.len() == 0 {
        Map::empty()
    } else {
        log_map(log.drop_last()).insert(log.last().0, log.last().1)
    }
}

/// One more write puts its value under its key.
pub proof fn lemma_log_push<K, V>(log: Seq<(K, V)>, key: K, value: V)
    ensures
        log_map(log.push((key, value))) == log_map(log).insert(key, value),
{
    assert(log.push((key, value)).drop_last() =~= log);
}

/// The map holds under `key` the value of the last write under it.
pub proof fn lemma_log_find<K, V>(log: Seq<(K, V)>, key: K, i: int)
    requires
        0 <= i < log.len(),
        log[i].0 == key,
        forall|j: int| i < j < log.len() ==> log[j].0 != key,
    ensures
        log_map(log).contains_key(key),
        log_map(log)[key] == log[i].1,
    decreases log.len(),
{
    if i < log.len() - 1 {
        lemma_log_find(log.drop_last(), key, i);
    }
}

/// The map holds nothing under a key that no write was under.
pub proof fn lemma_log_miss<K, V>(log: Seq<(K, V)>, key: K)
    requires
        forall|j: int| 0 <= j < log.len() ==> log[j].0 != key,
    ensures
        !log_map(log).contains_key(key),
    decreases log.len(),
{
    if log.len() > 0 {
        lemma_log_miss(log.drop_last(), key);
    }
}

/// What the map holds under a key was written under it.
pub proof fn lemma_log_has<K, V>(log: Seq<(K, V)>, key: K) -> (i: int)
    requires
        log_map(log).contains_key(key),
    ensures
        0 <= i < log.len(),
        log[i].0 == key,
        log[i].1 == log_map(log)[key],
    decreases log.len(),
{
    if log.last().0 == key {
        log.len() - 1
    } else {
        lemma_log_has(log.drop_last(), key)
    }
}

/// One written slot of a tree.
#[derive(Clone, Copy)]
pub struct LeafEntry {
    pub slot: u64,
    pub words: [u64; 4],
}

/// One tree: its root and the writes that made it.
pub struct TreeEntry {
    pub root: [u64; 4],
    pub leaves: Vec<LeafEntry>,
}

/// One payload that was hashed, with its digest.
pub struct DigestEntry {
    pub data: Vec<u64>,
    pub pad: bool,
    pub digest: [u64; 4],
}

/// One payload that was cached, with the hash it is under.
pub struct CacheEntry {
    pub hash: [u64; 4],
    pub data: Vec<u64>,
}

/// The writes to the slots of one tree, as slot and hash.
pub open spec fn leaf_pairs(log: Seq<LeafEntry>) -> Seq<(int, Seq<u64>)> {
    Seq::new(log.len(), |i: int| (log[i].slot as int, log[i].words@))
}

/// The leaves of a tree with the writes `written`: in each slot of the
/// accumulator the hash written last, or the zero words.
pub open spec fn full_tree(written: Map<int, Seq<u64>>) -> Map<int, Seq<u64>> {
    Map::new(
        |i: int| 0 <= i < slot_count(),
        |i: int|
            if written.contains_key(i) {
                written[i]
            } else {
                zero_words()
            },
    )
}

/// The trees, as root and leaves.
pub open spec fn tree_pairs(log: Seq<TreeEntry>) -> Seq<(Seq<u64>, Map<int, Seq<u64>>)> {
    Seq::new(log.len(), |i: int| (log[i].root@, full_tree(log_map(leaf_pairs(log[i].leaves@)))))
}

/// The payloads that were hashed, as payload with padding mode and digest.
pub open spec fn digest_pairs(log: Seq<DigestEntry>) -> Seq<((Seq<u64>, bool), Seq<u64>)> {
    Seq::new(log.len(), |i: int| ((log[i].data@, log[i].pad), log[i].digest@))
}

/// The writes to the cache, as hash and payload.
pub open spec fn cache_pairs(log: Seq<CacheEntry>) -> Seq<(Seq<u64>, Seq<u64>)> {
    Seq::new(log.len(), |i: int| (log[i].hash@, log[i].data@))
}

/// The root that the accumulator gives to the tree it makes as number `i`.
pub open spec fn numbered_root(i: int) -> Seq<u64> {
    seq![i as u64, 0u64, 0u64, 0u64]
}

/// The digest that the hash function gives to the payload it sees as
/// number `i`.
pub open spec fn numbered_digest(i: int) -> Seq<u64> {
    seq![i as u64, 1u64, 0u64, 0u64]
}

/// The host in memory.
pub struct MemoryHost {
    trees: Vec<TreeEntry>,
    digests: Vec<DigestEntry>,
    cache: Vec<CacheEntry>,
    slot: u64,
    root: Vec<u64>,
    reads: usize,
    written: Vec<u64>,
    backs: usize,
    trace: Ghost<Seq<Call>>,
}

/// Whether two sequences of words are the same.
pub fn same_words(a: &[u64], b: &[u64]) -> (same: bool)
    ensures
        same == (a@ == b@),
{
    if a.len() != b.len() {
        return false;
    }
    let mut i: usize = 0;
    while i < a.len()
        invariant
            i <= a@.len(),
            a@.len() == b@.len(),
            forall|j: int| 0 <= j < i ==> a@[j] == b@[j],
        decreases a@.len() - i,
    {
        if a[i] != b[i] {
            return false;
        }
        i += 1;
    }
    assert(a@ =~= b@);
    true
}

/// The hash that the last write to `slot` left, or the zero words.
fn leaf_in(log: &Vec<LeafEntry>, slot: u64) -> (words: [u64; 4])
    ensures
        words@ == if log_map(leaf_pairs(log@)).contains_key(slot as int) {
            log_map(leaf_pairs(log@))[slot as int]
        } else {
            zero_words()
        },
{
    let mut i: usize = log.len();
    while i > 0
        invariant
            i <= log@.len(),
            forall|j: int| i <= j < log@.len() ==> leaf_pairs(log@)[j].0 != slot as int,
        decreases i,
    {
        i -= 1;
        if log[i].slot == slot {
            proof {
                lemma_log_find(leaf_pairs(log@), slot as int, i as int);
            }
            return log[i].words;
        }
    }
    proof {
        lemma_log_miss(leaf_pairs(log@), slot as int);
    }
    let words = [0u64; 4];
    assert(words@ =~= zero_words());
    words
}

impl MemoryHost {
    /// The roots and digests are numbered, the tree of number 0 is the empty
    /// one, and no payload was hashed twice.
    pub closed spec fn numbered(&self) -> bool {
        &&& self.slot < slot_count()
        &&& self.trees@.len() >= 1
        &&& self.trees@[0].root@ == empty_root()
        &&& self.trees@[0].leaves@.len() == 0
        &&& forall|i: int| 1 <= i < self.trees@.len() ==> (#[trigger] self.trees@[i]).root@
            == numbered_root(i)
        &&& forall|i: int, j: int|
            0 <= i < self.trees@.len() && 0 <= j < self.trees@[i].leaves@.len() ==> (
            #[trigger] self.trees@[i].leaves@[j]).slot < slot_count()
        &&& forall|i: int| 0 <= i < self.digests@.len() ==> (#[trigger] self.digests@[i]).digest@
            == numbered_digest(i)
        &&& forall|i: int, j: int|
            0 <= i < j < self.digests@.len() ==> (#[trigger] self.digests@[i]).data@ != (
            #[trigger] self.digests@[j]).data@ || self.digests@[i].pad != self.digests@[j].pad
    }

    /// A host that knows the empty tree and nothing else.
    pub fn new() -> (host: Self)
        ensures
            host.inv(),
            host.world().trees == Map::<Seq<u64>, Map<int, Seq<u64>>>::empty().insert(
                empty_root(),
                empty_tree(),
            ),
            host.world().digests == Map::<(Seq<u64>, bool), Seq<u64>>::empty(),
            host.world().cache == Map::<Seq<u64>, Seq<u64>>::empty(),
    {
        let root = [
            14789582351289948625u64,
            10919489180071018470u64,
            10309858136294505219u64,
            2839580074036780766u64,
        ];
        assert(root@ =~= empty_root());
        let mut trees: Vec<TreeEntry> = Vec::new();
        trees.push(TreeEntry { root, leaves: Vec::new() });
        let host = MemoryHost {
            trees,
            digests: Vec::new(),
            cache: Vec::new(),
            slot: 0,
            root: Vec::new(),
            reads: 0,
            written: Vec::new(),
            backs: 0,
            trace: Ghost(Seq::empty()),
        };
        proof {
            let pairs = tree_pairs(host.trees@);
            assert(leaf_pairs(host.trees@[0].leaves@) =~= Seq::empty());
            assert(full_tree(log_map(leaf_pairs(host.trees@[0].leaves@))) =~= empty_tree());
            assert(pairs =~= Seq::<(Seq<u64>, Map<int, Seq<u64>>)>::empty().push(
                (empty_root(), empty_tree()),
            ));
            lemma_log_push(
                Seq::<(Seq<u64>, Map<int, Seq<u64>>)>::empty(),
                empty_root(),
                empty_tree(),
            );
            assert(digest_pairs(host.digests@) =~= Seq::empty());
            assert(cache_pairs(host.cache@) =~= Seq::empty());
        }
        host
    }

    /// Whether the accumulator knows `root`.
    pub fn knows(&self, root: &[u64; 4]) -> (known: bool)
        requires
            self.inv(),
        ensures
            known == self.world().knows(root@),
    {
        let mut i: usize = 0;
        while i < self.trees.len()
            invariant
                self.numbered(),
                i <= self.trees@.len(),
                forall|j: int| 0 <= j < i ==> tree_pairs(self.trees@)[j].0 != root@,
            decreases self.trees@.len() - i,
        {
            if same_words(&self.trees[i].root, root) {
                proof {
                    self.lemma_tree_at(i as int);
                }
                return true;
            }
            i += 1;
        }
        proof {
            lemma_log_miss(tree_pairs(self.trees@), root@);
        }
        false
    }

    /// No two trees have the same root.
    proof fn lemma_roots_differ(&self, i: int, j: int)
        requires
            self.numbered(),
            0 <= i < j < self.trees@.len(),
        ensures
            self.trees@[i].root@ != self.trees@[j].root@,
    {
        assert(self.trees@[j].root@ == numbered_root(j));
        assert(self.trees@.len() == self.trees.len());
        if i == 0 {
            assert(empty_root()[1] != numbered_root(j)[1]);
        } else {
            assert(self.trees@[i].root@ == numbered_root(i));
            assert(numbered_root(i)[0] != numbered_root(j)[0]);
        }
    }

    /// The world holds each tree under its root.
    proof fn lemma_tree_at(&self, i: int)
        requires
            self.numbered(),
            0 <= i < self.trees@.len(),
        ensures
            self.world().trees.contains_key(self.trees@[i].root@),
            self.world().trees[self.trees@[i].root@] == full_tree(
                log_map(leaf_pairs(self.trees@[i].leaves@)),
            ),
    {
        let pairs = tree_pairs(self.trees@);
        assert forall|j: int| i < j < pairs.len() implies pairs[j].0 != self.trees@[i].root@ by {
            self.lemma_roots_differ(i, j);
        }
        lemma_log_find(pairs, self.trees@[i].root@, i);
    }

    /// The number of the tree under the root that was presented.
    fn presented_tree(&self) -> (t: usize)
        requires
            self.numbered(),
            self.root@.len() == 4,
            self.world().knows(self.root@),
        ensures
            t < self.trees@.len(),
            self.trees@[t as int].root@ == self.root@,
    {
        let mut i: usize = 0;
        loop
            invariant
                i <= self.trees@.len(),
                self.root@.len() == 4,
                self.world().knows(self.root@),
                forall|j: int| 0 <= j < i ==> tree_pairs(self.trees@)[j].0 != self.root@,
            decreases self.trees@.len() - i,
        {
            if i >= self.trees.len() {
                proof {
                    lemma_log_miss(tree_pairs(self.trees@), self.root@);
                }
                return 0;
            }
            if same_words(&self.trees[i].root, self.root.as_slice()) {
                return i;
            }
            i += 1;
        }
    }
}

impl Host for MemoryHost {
    closed spec fn world(&self) -> World {
        World {
            trees: log_map(tree_pairs(self.trees@)),
            digests: log_map(digest_pairs(self.digests@)),
            cache: log_map(cache_pairs(self.cache@)),
            turn: Exchange {
                slot: self.slot as int,
                root: self.root@,
                reads: self.reads as nat,
                written: self.written@,
                backs: self.backs as nat,
            },
            trace: self.trace@,
        }
    }

    closed spec fn inv(&self) -> bool {
        self.numbered()
    }

    proof fn inv_is_sound(&self) {
        let world = self.world();
        self.lemma_tree_at(0);
        assert(leaf_pairs(self.trees@[0].leaves@) =~= Seq::empty());
        assert(full_tree(log_map(leaf_pairs(self.trees@[0].leaves@))) =~= empty_tree());
        assert forall|r: Seq<u64>| #[trigger] world.trees.contains_key(r) implies r.len() == 4
            && r[3] < root_word_limit() by {
            let i = lemma_log_has(tree_pairs(self.trees@), r);
            if i > 0 {
                assert(self.trees@[i].root@ == numbered_root(i));
            }
        }
        assert forall|r: Seq<u64>, s: int| world.trees.contains_key(r) implies (
        #[trigger] world.trees[r].contains_key(s) <==> 0 <= s < slot_count()) by {
            let i = lemma_log_has(tree_pairs(self.trees@), r);
        }
        assert forall|r: Seq<u64>, s: int|
            world.trees.contains_key(r) && #[trigger] world.trees[r].contains_key(
                s,
            ) implies world.trees[r][s].len() == 4 by {
            let i = lemma_log_has(tree_pairs(self.trees@), r);
            let written = log_map(leaf_pairs(self.trees@[i].leaves@));
            if written.contains_key(s) {
                let j = lemma_log_has(leaf_pairs(self.trees@[i].leaves@), s);
            }
        }
        assert forall|k: (Seq<u64>, bool)| #[trigger] world.digests.contains_key(k) implies
            world.digests[k].len() == 4 && world.digests[k] != zero_words() by {
            let i = lemma_log_has(digest_pairs(self.digests@), k);
            assert(self.digests@[i].digest@ == numbered_digest(i));
            assert(numbered_digest(i)[1] != zero_words()[1]);
        }
        assert forall|j: (Seq<u64>, bool), k: (Seq<u64>, bool)|
            world.digests.contains_key(j) && world.digests.contains_key(k) && world.digests[j]
                == world.digests[k] implies j == k by {
            let a = lemma_log_has(digest_pairs(self.digests@), j);
            let b = lemma_log_has(digest_pairs(self.digests@), k);
            assert(self.digests@.len() == self.digests.len());
            assert(self.digests@[a].digest@ == numbered_digest(a));
            assert(self.digests@[b].digest@ == numbered_digest(b));
            assert(numbered_digest(a)[0] == numbered_digest(b)[0]);
        }
    }

    fn address(&mut self, index: u64) {
        self.slot = index;
        self.root = Vec::new();
        self.reads = 0;
        self.written = Vec::new();
        self.backs = 0;
        self.trace = Ghost(self.trace@.push(Call::Address(index)));
        assert(self.world().turn.root =~= Seq::<u64>::empty());
        assert(self.world().turn.written =~= Seq::<u64>::empty());
    }

    fn present_root(&mut self, word: u64) {
        self.root.push(word);
        self.trace = Ghost(self.trace@.push(Call::Present(word)));
    }

    fn get(&mut self) -> (word: u64) {
        let t = self.presented_tree();
        proof {
            self.lemma_tree_at(t as int);
        }
        let words = leaf_in(&self.trees[t].leaves, self.slot);
        let word = words[self.reads];
        self.reads = self.reads + 1;
        self.trace = Ghost(self.trace@.push(Call::Read(word)));
        word
    }

    fn set(&mut self, word: u64) {
        self.trace = Ghost(self.trace@.push(Call::Write(word)));
        if self.written.len() < 3 {
            self.written.push(word);
        } else {
            let t = self.presented_tree();
            let words = [self.written[0], self.written[1], self.written[2], word];
            let mut leaves = slice_to_vec(self.trees[t].leaves.as_slice());
            leaves.push(LeafEntry { slot: self.slot, words });
            let number = self.trees.len() as u64;
            let root = [number, 0, 0, 0];
            let ghost before = *self;
            proof {
                before.lemma_tree_at(t as int);
                assert(root@ =~= numbered_root(number as int));
                assert(words@ =~= before.written@.push(word));
                assert(leaf_pairs(leaves@) =~= leaf_pairs(before.trees@[t as int].leaves@).push(
                    (before.slot as int, words@),
                ));
                lemma_log_push(
                    leaf_pairs(before.trees@[t as int].leaves@),
                    before.slot as int,
                    words@,
                );
                assert(full_tree(log_map(leaf_pairs(leaves@))) =~= full_tree(
                    log_map(leaf_pairs(before.trees@[t as int].leaves@)),
                ).insert(before.slot as int, words@));
                assert forall|j: int| 0 <= j < before.trees@.len() implies tree_pairs(
                    before.trees@,
                )[j].0 != root@ by {
                    if j == 0 {
                        assert(empty_root()[1] != root@[1]);
                    } else {
                        assert(before.trees@[j].root@ == numbered_root(j));
                        assert(numbered_root(j)[0] != root@[0]);
                    }
                }
                lemma_log_miss(tree_pairs(before.trees@), root@);
            }
            self.trees.push(TreeEntry { root, leaves });
            self.root = Vec::new();
            self.root.push(number);
            self.root.push(0);
            self.root.push(0);
            self.root.push(0);
            self.written.push(word);
            proof {
                assert(self.root@ =~= root@);
                assert(tree_pairs(self.trees@) =~= tree_pairs(before.trees@).push(
                    (root@, full_tree(log_map(leaf_pairs(leaves@)))),
                ));
                lemma_log_push(
                    tree_pairs(before.trees@),
                    root@,
                    full_tree(log_map(leaf_pairs(leaves@))),
                );
                assert(self.world() == old(self).world().sealed(word, self.root@));
                assert forall|i: int| 1 <= i < self.trees@.len() implies (
                #[trigger] self.trees@[i]).root@ == numbered_root(i) by {
                    if i < before.trees@.len() {
                        assert(self.trees@[i] == before.trees@[i]);
                    }
                }
                assert forall|i: int, j: int|
                    0 <= i < self.trees@.len() && 0 <= j < self.trees@[i].leaves@.len() implies (
                #[trigger] self.trees@[i].leaves@[j]).slot < slot_count() by {
                    if i < before.trees@.len() {
                        assert(self.trees@[i] == before.trees@[i]);
                    } else if j < before.trees@[t as int].leaves@.len() {
                        assert(self.trees@[i].leaves@[j] == before.trees@[t as int].leaves@[j]);
                    }
                }
            }
        }
    }

    fn root(&mut self) -> (word: u64) {
        let word = self.root[self.backs];
        self.backs = self.backs + 1;
        self.trace = Ghost(self.trace@.push(Call::ReadBack(word)));
        word
    }

    fn hash(&mut self, data: &[u64], pad: bool) -> (digest: [u64; 4]) {
        let ghost key = (data@, pad);
        let mut i: usize = 0;
        while i < self.digests.len()
            invariant
                i <= self.digests@.len(),
                *self == *old(self),
                self.numbered(),
                key == (data@, pad),
                forall|j: int| 0 <= j < i ==> digest_pairs(self.digests@)[j].0 != key,
            decreases self.digests@.len() - i,
        {
            if self.digests[i].pad == pad && same_words(self.digests[i].data.as_slice(), data) {
                let digest = self.digests[i].digest;
                proof {
                    let pairs = digest_pairs(self.digests@);
                    assert forall|j: int| i < j < pairs.len() implies pairs[j].0 != key by {
                        assert(self.digests@[i as int].data@ != self.digests@[j].data@
                            || self.digests@[i as int].pad != self.digests@[j].pad);
                    }
                    lemma_log_find(pairs, key, i as int);
                    assert(self.world().digests =~= self.world().digests.insert(key, digest@));
                }
                return digest;
            }
            i += 1;
        }
        let number = self.digests.len() as u64;
        let digest = [number, 1, 0, 0];
        let ghost before = *self;
        proof {
            lemma_log_miss(digest_pairs(before.digests@), key);
            assert(digest@ =~= numbered_digest(number as int));
        }
        self.digests.push(DigestEntry { data: slice_to_vec(data), pad, digest });
        proof {
            assert(digest_pairs(self.digests@) =~= digest_pairs(before.digests@).push(
                (key, digest@),
            ));
            lemma_log_push(digest_pairs(before.digests@), key, digest@);
            assert forall|i: int| 0 <= i < self.digests@.len() implies (
            #[trigger] self.digests@[i]).digest@ == numbered_digest(i) by {
                if i < before.digests@.len() {
                    assert(self.digests@[i] == before.digests@[i]);
                }
            }
            assert forall|i: int, j: int| 0 <= i < j < self.digests@.len() implies (
            #[trigger] self.digests@[i]).data@ != (#[trigger] self.digests@[j]).data@
                || self.digests@[i].pad != self.digests@[j].pad by {
                assert(self.digests@[i] == before.digests@[i]);
                if j < before.digests@.len() {
                    assert(self.digests@[j] == before.digests@[j]);
                } else {
                    assert(digest_pairs(before.digests@)[i].0 != key);
                }
            }
        }
        digest
    }

    fn store(&mut self, hash: &[u64; 4], data: &[u64]) {
        let ghost before = *self;
        self.cache.push(CacheEntry { hash: *hash, data: slice_to_vec(data) });
        proof {
            assert(cache_pairs(self.cache@) =~= cache_pairs(before.cache@).push((hash@, data@)));
            lemma_log_push(cache_pairs(before.cache@), hash@, data@);
        }
    }

    // a host in memory has no run to end: its callers meet the condition
    fn require(&mut self, condition: bool) {
    }

    fn fetch(&mut self, hash: &[u64; 4]) -> (data: Vec<u64>) {
        let mut i: usize = self.cache.len();
        while i > 0
            invariant
                i <= self.cache@.len(),
                *self == *old(self),
                self.numbered(),
                forall|j: int| i <= j < self.cache@.len() ==> cache_pairs(self.cache@)[j].0 != hash@,
            decreases i,
        {
            i -= 1;
            if same_words(&self.cache[i].hash, hash) {
                proof {
                    lemma_log_find(cache_pairs(self.cache@), hash@, i as int);
                }
                return slice_to_vec(self.cache[i].data.as_slice());
            }
        }
        proof {
            lemma_log_miss(cache_pairs(self.cache@), hash@);
        }
        Vec::new()
    }
}

} // verus!
