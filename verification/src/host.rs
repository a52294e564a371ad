//! The host services: the accumulator, the hash function and the payload
//! cache, with the mathematical model that their contract is stated over.

use vstd::prelude::*;

verus! {

/// One past the largest leaf index of an accumulator of depth 32.
pub open spec fn slot_count() -> int {
    0x1_0000_0000
}

/// The four zero words: the hash of a slot that was never written.
pub open spec fn zero_words() -> Seq<u64> {
    seq![0u64, 0u64, 0u64, 0u64]
}

/// The root of the accumulator in which no slot was ever written.
pub open spec fn empty_root() -> Seq<u64> {
    seq![
        14789582351289948625u64,
        10919489180071018470u64,
        10309858136294505219u64,
        2839580074036780766u64,
    ]
}

/// The leaves of the tree in which no slot was ever written: every slot of
/// the accumulator, with the zero words in it.
pub open spec fn empty_tree() -> Map<int, Seq<u64>> {
    Map::new(|i: int| 0 <= i < slot_count(), |i: int| zero_words())
}

/// Roots are field elements: the two top bits of their last word are clear.
pub open spec fn root_word_limit() -> int {
    0x4000_0000_0000_0000
}

/// One call of the accumulator, with the word that went in or came out.
pub enum Call {
    /// A slot was addressed.
    Address(u64),
    /// A word of the root was presented.
    Present(u64),
    /// A word of the leaf was read.
    Read(u64),
    /// A word of the leaf was written.
    Write(u64),
    /// A word of the root was read back.
    ReadBack(u64),
}

/// The calls of one read of a leaf: the slot, the four words of the root,
/// the four words of the leaf, and the root read back.
pub open spec fn read_calls(slot: int, root: Seq<u64>, leaf: Seq<u64>) -> Seq<Call> {
    seq![
        Call::Address(slot as u64),
        Call::Present(root[0]),
        Call::Present(root[1]),
        Call::Present(root[2]),
        Call::Present(root[3]),
        Call::Read(leaf[0]),
        Call::Read(leaf[1]),
        Call::Read(leaf[2]),
        Call::Read(leaf[3]),
        Call::ReadBack(root[0]),
        Call::ReadBack(root[1]),
        Call::ReadBack(root[2]),
        Call::ReadBack(root[3]),
    ]
}

/// The calls of one write of a leaf: the slot, the four words of the root,
/// the four words of the leaf, and the four words of the new root.
pub open spec fn write_calls(slot: int, root: Seq<u64>, leaf: Seq<u64>, next: Seq<u64>) -> Seq<
    Call,
> {
    seq![
        Call::Address(slot as u64),
        Call::Present(root[0]),
        Call::Present(root[1]),
        Call::Present(root[2]),
        Call::Present(root[3]),
        Call::Write(leaf[0]),
        Call::Write(leaf[1]),
        Call::Write(leaf[2]),
        Call::Write(leaf[3]),
        Call::ReadBack(next[0]),
        Call::ReadBack(next[1]),
        Call::ReadBack(next[2]),
        Call::ReadBack(next[3]),
    ]
}

/// The word exchange in progress with the accumulator.
pub struct Exchange {
    /// The slot that was addressed.
    pub slot: int,
    /// The root words presented so far; after a complete write, the new root.
    pub root: Seq<u64>,
    /// How many words of the leaf were read.
    pub reads: nat,
    /// The leaf words written so far.
    pub written: Seq<u64>,
    /// How many words of the root were read back.
    pub backs: nat,
}

/// What the host holds.
pub struct World {
    /// Each root the accumulator knows, with the leaves of its tree: the
    /// hash in each of its slots, the zero words where none was written. Two
    /// trees with the same leaves are the same map.
    pub trees: Map<Seq<u64>, Map<int, Seq<u64>>>,
    /// The digests handed out so far, by payload and padding mode.
    pub digests: Map<(Seq<u64>, bool), Seq<u64>>,
    /// The payload cache, by hash.
    pub cache: Map<Seq<u64>, Seq<u64>>,
    /// The exchange in progress.
    pub turn: Exchange,
    /// Every call of the accumulator so far, in order.
    pub trace: Seq<Call>,
}

impl Exchange {
    /// The exchange right after a slot was addressed.
    pub open spec fn opened(slot: int) -> Exchange {
        Exchange { slot, root: Seq::empty(), reads: 0, written: Seq::empty(), backs: 0 }
    }

    /// The exchange after a whole leaf was read under `root`.
    pub open spec fn read_done(slot: int, root: Seq<u64>) -> Exchange {
        Exchange { slot, root, reads: 4, written: Seq::empty(), backs: 4 }
    }

    /// The exchange after `leaf` was written, which gave `root`.
    pub open spec fn write_done(slot: int, root: Seq<u64>, leaf: Seq<u64>) -> Exchange {
        Exchange { slot, root, reads: 0, written: leaf, backs: 4 }
    }

    /// A root word may be presented next.
    pub open spec fn presenting(self) -> bool {
        self.root.len() < 4 && self.reads == 0 && self.written.len() == 0 && self.backs == 0
    }

    /// A leaf word may be read next.
    pub open spec fn reading(self) -> bool {
        self.root.len() == 4 && self.reads < 4 && self.written.len() == 0 && self.backs == 0
    }

    /// A leaf word may be written next.
    pub open spec fn writing(self) -> bool {
        self.root.len() == 4 && self.reads == 0 && self.written.len() < 4 && self.backs == 0
    }

    /// A root word may be read back next.
    pub open spec fn closing(self) -> bool {
        self.root.len() == 4 && self.backs < 4 && (self.reads == 4 && self.written.len() == 0
            || self.reads == 0 && self.written.len() == 4)
    }
}

impl World {
    /// The accumulator knows `root`.
    pub open spec fn knows(self, root: Seq<u64>) -> bool {
        self.trees.contains_key(root)
    }

    /// The hash in slot `slot` of the tree under `root`.
    pub open spec fn leaf(self, root: Seq<u64>, slot: int) -> Seq<u64> {
        if self.trees.contains_key(root) && self.trees[root].contains_key(slot) {
            self.trees[root][slot]
        } else {
            zero_words()
        }
    }

    /// The payload that the cache returns for `hash`: empty where it holds none.
    pub open spec fn cached(self, hash: Seq<u64>) -> Seq<u64> {
        if self.cache.contains_key(hash) {
            self.cache[hash]
        } else {
            Seq::empty()
        }
    }

    /// The digest of `data` was handed out and is `hash`.
    pub open spec fn digest_is(self, data: Seq<u64>, pad: bool, hash: Seq<u64>) -> bool {
        self.digests.contains_key((data, pad)) && self.digests[(data, pad)] == hash
    }

    /// The tree under `root` with `leaf` in slot `slot`.
    pub open spec fn tree_with(self, root: Seq<u64>, slot: int, leaf: Seq<u64>) -> Map<
        int,
        Seq<u64>,
    > {
        self.trees[root].insert(slot, leaf)
    }

    /// Trees, digests and cache are those of `other`; the exchange may differ.
    pub open spec fn same_store(self, other: World) -> bool {
        self.trees == other.trees && self.digests == other.digests && self.cache == other.cache
    }

    /// The cache holds under `hash` a payload with that digest.
    pub open spec fn holds_true(self, hash: Seq<u64>) -> bool {
        self.cache.contains_key(hash) && (self.digest_is(self.cache[hash], true, hash)
            || self.digest_is(self.cache[hash], false, hash))
    }

    /// `next` has all that this world has: the trees under the roots known
    /// here, the digests handed out here, and each payload that is cached
    /// here under its own digest.
    pub open spec fn grows_to(self, next: World) -> bool {
        &&& forall|r: Seq<u64>| #[trigger]
            self.trees.contains_key(r) ==> next.trees.contains_key(r) && next.trees[r]
                == self.trees[r]
        &&& forall|k: (Seq<u64>, bool)| #[trigger]
            self.digests.contains_key(k) ==> next.digests.contains_key(k) && next.digests[k]
                == self.digests[k]
        &&& forall|h: Seq<u64>| #[trigger]
            self.holds_true(h) ==> next.cache.contains_key(h) && next.cache[h] == self.cache[h]
    }

    /// The world with another exchange in progress.
    pub open spec fn with_turn(self, turn: Exchange) -> World {
        World { turn, ..self }
    }

    /// The world with one more call in its trace.
    pub open spec fn logged(self, call: Call) -> World {
        World { trace: self.trace.push(call), ..self }
    }

    /// The world after the leaf in slot `slot` of the tree under `root` was
    /// read: nothing has changed but the exchange and the trace.
    pub open spec fn read_through(self, slot: int, root: Seq<u64>) -> World {
        World {
            turn: Exchange::read_done(slot, root),
            trace: self.trace + read_calls(slot, root, self.leaf(root, slot)),
            ..self
        }
    }

    /// What every host keeps true: the empty tree is known and every leaf of
    /// it is zero, a tree has a leaf of four words in each slot of the
    /// accumulator and nowhere else, roots have four words, a root's last word
    /// is below the limit, and no two payloads were given the same digest, nor
    /// any the zero words. The slot of the exchange is one of the accumulator.
    pub open spec fn sound(self) -> bool {
        &&& 0 <= self.turn.slot < slot_count()
        &&& self.trees.contains_key(empty_root())
        &&& self.trees[empty_root()] == empty_tree()
        &&& forall|r: Seq<u64>| #[trigger]
            self.trees.contains_key(r) ==> r.len() == 4 && r[3] < root_word_limit()
        &&& forall|r: Seq<u64>, i: int|
            self.trees.contains_key(r) ==> (#[trigger] self.trees[r].contains_key(i) <==> 0 <= i
                < slot_count())
        &&& forall|r: Seq<u64>, i: int|
            self.trees.contains_key(r) && #[trigger] self.trees[r].contains_key(i)
                ==> self.trees[r][i].len() == 4
        &&& forall|k: (Seq<u64>, bool)| #[trigger]
            self.digests.contains_key(k) ==> self.digests[k].len() == 4 && self.digests[k]
                != zero_words()
        &&& forall|j: (Seq<u64>, bool), k: (Seq<u64>, bool)|
            #![trigger self.digests[j], self.digests[k]]
            self.digests.contains_key(j) && self.digests.contains_key(k) && self.digests[j]
                == self.digests[k] ==> j == k
    }

    /// The effect of the accumulator's `address`.
    pub open spec fn addressed(self, index: u64) -> World {
        self.with_turn(Exchange::opened(index as int)).logged(Call::Address(index))
    }

    /// The effect of presenting one root word.
    pub open spec fn presented(self, word: u64) -> World {
        self.with_turn(Exchange { root: self.turn.root.push(word), ..self.turn }).logged(
            Call::Present(word),
        )
    }

    /// The word that the next read returns.
    pub open spec fn next_read(self) -> u64 {
        self.leaf(self.turn.root, self.turn.slot)[self.turn.reads as int]
    }

    /// The effect of reading one leaf word.
    pub open spec fn after_read(self) -> World {
        self.with_turn(Exchange { reads: self.turn.reads + 1, ..self.turn }).logged(
            Call::Read(self.next_read()),
        )
    }

    /// The effect of writing one of the first three leaf words.
    pub open spec fn after_write(self, word: u64) -> World {
        self.with_turn(Exchange { written: self.turn.written.push(word), ..self.turn }).logged(
            Call::Write(word),
        )
    }

    /// The effect of writing the fourth leaf word, where the accumulator
    /// answers with the root `root`: the tree under `root` is the presented
    /// one with the written leaf in the addressed slot, and every tree known
    /// before is as it was.
    pub open spec fn sealed(self, word: u64, root: Seq<u64>) -> World {
        let leaf = self.turn.written.push(word);
        World {
            trees: self.trees.insert(root, self.tree_with(self.turn.root, self.turn.slot, leaf)),
            turn: Exchange { root, written: leaf, ..self.turn },
            trace: self.trace.push(Call::Write(word)),
            ..self
        }
    }

    /// `root` may be the answer to the fourth leaf word `word`.
    pub open spec fn seals_with(self, word: u64, root: Seq<u64>) -> bool {
        &&& root.len() == 4
        &&& root[3] < root_word_limit()
        &&& self.trees.contains_key(root) ==> self.trees[root] == self.tree_with(
            self.turn.root,
            self.turn.slot,
            self.turn.written.push(word),
        )
    }

    /// The word that the next root read-back returns.
    pub open spec fn next_back(self) -> u64 {
        self.turn.root[self.turn.backs as int]
    }

    /// The effect of reading one root word back.
    pub open spec fn after_back(self) -> World {
        self.with_turn(Exchange { backs: self.turn.backs + 1, ..self.turn }).logged(
            Call::ReadBack(self.next_back()),
        )
    }

    /// The effect of hashing `data`, where the digest is `hash`.
    pub open spec fn hashed(self, data: Seq<u64>, pad: bool, hash: Seq<u64>) -> World {
        World { digests: self.digests.insert((data, pad), hash), ..self }
    }

    /// The effect of storing `data` in the cache under `hash`.
    pub open spec fn stored(self, hash: Seq<u64>, data: Seq<u64>) -> World {
        World { cache: self.cache.insert(hash, data), ..self }
    }

    /// The world after `data` was hashed to `hash` and cached under it.
    pub open spec fn filed(self, data: Seq<u64>, pad: bool, hash: Seq<u64>) -> World {
        self.hashed(data, pad, hash).stored(hash, data)
    }

    /// `hash` may be the digest of `data`: it is the one handed out before,
    /// where there was one.
    pub open spec fn may_hash(self, data: Seq<u64>, pad: bool, hash: Seq<u64>) -> bool {
        self.digests.contains_key((data, pad)) ==> self.digests[(data, pad)] == hash
    }

    /// `next` is this world after `data` was hashed: the digest of `data` is
    /// in `next`, as it was wherever it was handed out before, and nothing
    /// else has changed.
    pub open spec fn hashes_into(self, data: Seq<u64>, pad: bool, next: World) -> bool {
        &&& next == self.hashed(data, pad, next.digests[(data, pad)])
        &&& self.may_hash(data, pad, next.digests[(data, pad)])
    }

    /// The world after `leaf` was written to slot `slot` of the tree under
    /// `root`, which gave the tree under `next`.
    pub open spec fn rewritten(
        self,
        root: Seq<u64>,
        slot: int,
        leaf: Seq<u64>,
        next: Seq<u64>,
    ) -> World {
        World {
            trees: self.trees.insert(next, self.tree_with(root, slot, leaf)),
            turn: Exchange::write_done(slot, next, leaf),
            trace: self.trace + write_calls(slot, root, leaf, next),
            ..self
        }
    }

    /// `next` may be the root after `leaf` was written to slot `slot` of the
    /// tree under `root`: a root known before stands for the same tree.
    pub open spec fn may_follow(
        self,
        root: Seq<u64>,
        slot: int,
        leaf: Seq<u64>,
        next: Seq<u64>,
    ) -> bool {
        &&& next.len() == 4
        &&& next[3] < root_word_limit()
        &&& self.trees.contains_key(next) ==> self.trees[next] == self.tree_with(
            root,
            slot,
            leaf,
        )
    }

}

/// Every world grows to itself, whatever exchange is in progress.
pub proof fn lemma_grows_same(world: World, next: World)
    requires
        next.same_store(world),
    ensures
        world.grows_to(next),
{
}

/// Growth goes on: what grows to a world grows to all that this world grows to.
pub proof fn lemma_grows_on(first: World, second: World, third: World)
    requires
        first.grows_to(second),
        second.grows_to(third),
    ensures
        first.grows_to(third),
{
    assert forall|h: Seq<u64>| #[trigger] first.holds_true(h) implies third.cache.contains_key(h)
        && third.cache[h] == first.cache[h] by {
        assert(second.holds_true(h));
    }
}

/// A write to a slot leaves a world that the old one has grown to, in which
/// the new root stands for the old tree with the one slot replaced.
pub proof fn lemma_rewritten(
    world: World,
    mid: World,
    root: Seq<u64>,
    slot: int,
    leaf: Seq<u64>,
    next: Seq<u64>,
)
    requires
        world.knows(root),
        mid.same_store(world),
        world.may_follow(root, slot, leaf, next),
    ensures
        world.grows_to(mid.rewritten(root, slot, leaf, next)),
        mid.rewritten(root, slot, leaf, next).knows(next),
        forall|i: int| #[trigger]
            mid.rewritten(root, slot, leaf, next).leaf(next, i) == if i == slot {
                leaf
            } else {
                world.leaf(root, i)
            },
{
}

/// Hashing a payload and caching it under its digest leaves a world that
/// the old one has grown to.
pub proof fn lemma_filed(world: World, data: Seq<u64>, pad: bool, hash: Seq<u64>)
    requires
        world.may_hash(data, pad, hash),
        world.filed(data, pad, hash).sound(),
    ensures
        world.grows_to(world.filed(data, pad, hash)),
        world.filed(data, pad, hash).digest_is(data, pad, hash),
        world.filed(data, pad, hash).cached(hash) == data,
{
    let next = world.filed(data, pad, hash);
    assert(next.digests.contains_key((data, pad)));
    assert forall|h: Seq<u64>| #[trigger] world.holds_true(h) implies next.cache.contains_key(h)
        && next.cache[h] == world.cache[h] by {
        if h == hash {
            let held = world.cache[h];
            let mode = world.digest_is(held, true, h);
            assert(next.digests.contains_key((held, mode)));
            assert(next.digests.contains_key((data, pad)));
            assert(next.digests[(held, mode)] == next.digests[(data, pad)]);
            assert((held, mode) == (data, pad));
        }
    }
}

/// Hashing a payload, caching it and writing its hash to a slot, with or
/// without a read before the write, leaves a world that the old one has
/// grown to. In it the new root stands for the old tree with the hash in
/// that slot, and the hash leads to the payload.
pub proof fn lemma_put(
    world: World,
    root: Seq<u64>,
    slot: int,
    data: Seq<u64>,
    pad: bool,
    hash: Seq<u64>,
    next: Seq<u64>,
    mid: World,
    after: World,
)
    requires
        world.sound(),
        world.knows(root),
        world.may_hash(data, pad, hash),
        world.may_follow(root, slot, hash, next),
        mid.same_store(world.filed(data, pad, hash)),
        after == mid.rewritten(root, slot, hash, next),
        after.sound(),
    ensures
        world.grows_to(after),
        after.knows(next),
        forall|i: int| #[trigger]
            after.leaf(next, i) == if i == slot {
                hash
            } else {
                world.leaf(root, i)
            },
        hash != zero_words(),
        after.cache.contains_key(hash),
        after.cached(hash) == data,
        after.digest_is(data, pad, hash),
{
    let filed = world.filed(data, pad, hash);
    assert(after.digests.contains_key((data, pad)));
    assert(filed.sound()) by {
        assert(filed.trees == world.trees);
        assert(filed.digests == after.digests);
    }
    lemma_filed(world, data, pad, hash);
    lemma_rewritten(filed, mid, root, slot, hash, next);
    lemma_grows_on(world, filed, after);
}

/// The services that the library calls. An implementation answers for the
/// contract of each method; the library is proved against the contracts alone.
pub trait Host {
    /// What the host holds.
    spec fn world(&self) -> World;

    /// The host is in a state its methods can work from.
    spec fn inv(&self) -> bool;

    /// A host in such a state holds a sound world.
    proof fn inv_is_sound(&self)
        requires
            self.inv(),
        ensures
            self.world().sound(),
    ;

    /// Selects the slot of the exchange that follows.
    fn address(&mut self, index: u64)
        requires
            old(self).inv(),
            index < slot_count(),
        ensures
            final(self).inv(),
            final(self).world() == old(self).world().addressed(index),
    ;

    /// Presents the next word of the root that the caller believes current.
    fn present_root(&mut self, word: u64)
        requires
            old(self).inv(),
            old(self).world().turn.presenting(),
        ensures
            final(self).inv(),
            final(self).world() == old(self).world().presented(word),
    ;

    /// Reads the next word of the addressed leaf.
    fn get(&mut self) -> (word: u64)
        requires
            old(self).inv(),
            old(self).world().turn.reading(),
            old(self).world().knows(old(self).world().turn.root),
        ensures
            final(self).inv(),
            word == old(self).world().next_read(),
            final(self).world() == old(self).world().after_read(),
    ;

    /// Writes the next word of the addressed leaf. The fourth word completes
    /// the leaf and gives the tree its new root.
    fn set(&mut self, word: u64)
        requires
            old(self).inv(),
            old(self).world().turn.writing(),
            old(self).world().knows(old(self).world().turn.root),
        ensures
            final(self).inv(),
            old(self).world().turn.written.len() < 3 ==> final(self).world() == old(
                self,
            ).world().after_write(word),
            old(self).world().turn.written.len() == 3 ==> old(self).world().seals_with(
                word,
                final(self).world().turn.root,
            ) && final(self).world() == old(self).world().sealed(
                word,
                final(self).world().turn.root,
            ),
    ;

    /// Reads the next word of the root back: the presented root after a read,
    /// the new root after a write.
    fn root(&mut self) -> (word: u64)
        requires
            old(self).inv(),
            old(self).world().turn.closing(),
        ensures
            final(self).inv(),
            word == old(self).world().next_back(),
            final(self).world() == old(self).world().after_back(),
    ;

    /// Hashes `data` under the padding mode `pad`. The same payload and mode
    /// always give the same digest.
    fn hash(&mut self, data: &[u64], pad: bool) -> (digest: [u64; 4])
        requires
            old(self).inv(),
        ensures
            final(self).inv(),
            digest@ == final(self).world().digests[(data@, pad)],
            old(self).world().hashes_into(data@, pad, final(self).world()),
    ;

    /// Puts `data` in the cache under `hash`, in place of what was there.
    fn store(&mut self, hash: &[u64; 4], data: &[u64])
        requires
            old(self).inv(),
        ensures
            final(self).inv(),
            final(self).world() == old(self).world().stored(hash@, data@),
    ;

    /// Ends the run where `condition` does not hold: the way in which the
    /// library has the host refuse a broken rule. It returns only where the
    /// condition holds, and changes nothing.
    fn require(&mut self, condition: bool)
        requires
            old(self).inv(),
            condition,
        ensures
            final(self).inv(),
            final(self).world() == old(self).world(),
    ;

    /// Returns the payload cached under `hash`, empty where there is none.
    fn fetch(&mut self, hash: &[u64; 4]) -> (data: Vec<u64>)
        requires
            old(self).inv(),
        ensures
            final(self).inv(),
            data@ == old(self).world().cached(hash@),
            final(self).world() == old(self).world(),
    ;
}

} // verus!
