//! The handle to one tree of the accumulator.

use crate::host::{empty_root, read_calls, write_calls, zero_words, Exchange, Host, World};
use vstd::prelude::*;

verus! {

/// A handle to one tree of the accumulator: its current root.
pub struct Merkle {
    pub root: [u64; 4],
}

impl Merkle {
    /// A write with `hint` is in order: there is no hint, or it is the hash
    /// that the slot holds.
    pub open spec fn hint_holds(
        world: World,
        root: Seq<u64>,
        slot: int,
        hint: Option<&[u64; 4]>,
    ) -> bool {
        hint matches Some(expected) ==> expected@ == world.leaf(root, slot)
    }

    /// The cache holds under `hash` a payload, and `hash` is its digest
    /// under the padding mode `pad`.
    pub open spec fn payload_fits(world: World, hash: Seq<u64>, pad: bool) -> bool {
        world.cached(hash).len() > 0 && world.digest_is(world.cached(hash), pad, hash)
    }

    /// The slot can be read: it is empty, or holds the digest of the payload
    /// that is cached under it.
    pub open spec fn readable(world: World, root: Seq<u64>, slot: int, pad: bool) -> bool {
        world.leaf(root, slot) == zero_words() || Self::payload_fits(
            world,
            world.leaf(root, slot),
            pad,
        )
    }

    /// Attaches to the tree under `root`. Nothing is read.
    pub fn load(root: [u64; 4]) -> (m: Self)
        ensures
            m.root == root,
    {
        Merkle { root }
    }

    /// Attaches to the tree in which no slot was ever written.
    pub fn new() -> (m: Self)
        ensures
            m.root@ == empty_root(),
    {
        let root = [
            14789582351289948625u64,
            10919489180071018470u64,
            10309858136294505219u64,
            2839580074036780766u64,
        ];
        assert(root@ =~= empty_root());
        Merkle { root }
    }

    /// Reads the hash in slot `index`: addresses the slot, presents the root,
    /// reads the four words of the leaf, and reads the root back, which must
    /// be the root presented.
    pub fn get_simple<H: Host>(&mut self, host: &mut H, index: u32, data: &mut [u64; 4])
        requires
            old(host).inv(),
            old(host).world().knows(old(self).root@),
        ensures
            final(host).inv(),
            *final(self) == *old(self),
            final(data)@ == old(host).world().leaf(old(self).root@, index as int),
            final(host).world() == old(host).world().read_through(
                index as int,
                old(self).root@,
            ),
    {
        host.address(index as u64);
        host.present_root(self.root[0]);
        host.present_root(self.root[1]);
        host.present_root(self.root[2]);
        host.present_root(self.root[3]);
        assert(host.world().turn.root =~= self.root@);
        let w0 = host.get();
        let w1 = host.get();
        let w2 = host.get();
        let w3 = host.get();
        // a read changes nothing: the root that comes back is the one presented
        let r0 = host.root();
        let r1 = host.root();
        let r2 = host.root();
        let r3 = host.root();
        host.require(r0 == self.root[0]);
        host.require(r1 == self.root[1]);
        host.require(r2 == self.root[2]);
        host.require(r3 == self.root[3]);
        *data = [w0, w1, w2, w3];
        proof {
            old(host).inv_is_sound();
            assert(data@ =~= old(host).world().leaf(old(self).root@, index as int));
            assert(host.world().trace =~= old(host).world().trace + read_calls(
                index as int,
                self.root@,
                data@,
            ));
        }
    }

    /// Writes the hash `data` to slot `index` without the read that the
    /// accumulator asks for before a write. For a caller whose last exchange
    /// was the read of that slot under this root.
    pub fn set_simple_unsafe<H: Host>(&mut self, host: &mut H, index: u32, data: &[u64; 4])
        requires
            old(host).inv(),
            old(host).world().knows(old(self).root@),
            old(host).world().turn == Exchange::read_done(index as int, old(self).root@),
        ensures
            final(host).inv(),
            old(host).world().may_follow(
                old(self).root@,
                index as int,
                data@,
                final(self).root@,
            ),
            final(host).world() == old(host).world().rewritten(
                old(self).root@,
                index as int,
                data@,
                final(self).root@,
            ),
    {
        host.address(index as u64);
        host.present_root(self.root[0]);
        host.present_root(self.root[1]);
        host.present_root(self.root[2]);
        host.present_root(self.root[3]);
        assert(host.world().turn.root =~= self.root@);
        host.set(data[0]);
        host.set(data[1]);
        host.set(data[2]);
        host.set(data[3]);
        assert(host.world().turn.written =~= data@);
        let r0 = host.root();
        let r1 = host.root();
        let r2 = host.root();
        let r3 = host.root();
        self.root = [r0, r1, r2, r3];
        assert(self.root@ =~= host.world().turn.root);
        assert(host.world().trace =~= old(host).world().trace + write_calls(
            index as int,
            old(self).root@,
            data@,
            self.root@,
        ));
    }

    /// Writes the hash `data` to slot `index`, after the read that the
    /// accumulator asks for. With a `hint`, the hash read must be the hint.
    pub fn set_simple<H: Host>(
        &mut self,
        host: &mut H,
        index: u32,
        data: &[u64; 4],
        hint: Option<&[u64; 4]>,
    )
        requires
            old(host).inv(),
            old(host).world().knows(old(self).root@),
            Self::hint_holds(old(host).world(), old(self).root@, index as int, hint),
        ensures
            final(host).inv(),
            old(host).world().may_follow(
                old(self).root@,
                index as int,
                data@,
                final(self).root@,
            ),
            final(host).world() == old(host).world().read_through(
                index as int,
                old(self).root@,
            ).rewritten(old(self).root@, index as int, data@, final(self).root@),
    {
        let mut held = [0u64; 4];
        self.get_simple(host, index, &mut held);
        if let Some(expected) = hint {
            host.require(expected[0] == held[0]);
            host.require(expected[1] == held[1]);
            host.require(expected[2] == held[2]);
            host.require(expected[3] == held[3]);
        }
        self.set_simple_unsafe(host, index, data);
    }

    /// Reads the payload of slot `index`. `hash` receives the hash in the
    /// slot. A slot with the zero hash is empty: `data` is emptied and the
    /// length is 0. For any other hash `data` receives the payload cached
    /// under it, which is hashed again under the padding mode `pad` and must
    /// give the hash in the slot.
    pub fn get<H: Host>(
        &mut self,
        host: &mut H,
        index: u32,
        data: &mut Vec<u64>,
        hash: &mut [u64; 4],
        pad: bool,
    ) -> (len: u64)
        requires
            old(host).inv(),
            old(host).world().knows(old(self).root@),
            Self::readable(old(host).world(), old(self).root@, index as int, pad),
        ensures
            final(host).inv(),
            *final(self) == *old(self),
            final(hash)@ == old(host).world().leaf(old(self).root@, index as int),
            final(hash)@ == zero_words() ==> final(data)@.len() == 0,
            final(hash)@ != zero_words() ==> final(data)@ == old(host).world().cached(
                final(hash)@,
            ),
            len == final(data)@.len(),
            final(host).world() == old(host).world().read_through(
                index as int,
                old(self).root@,
            ),
    {
        self.get_simple(host, index, hash);
        if hash[0] == 0 && hash[1] == 0 && hash[2] == 0 && hash[3] == 0 {
            assert(hash@ =~= zero_words());
            data.clear();
            return 0;
        }
        assert(hash@ != zero_words()) by {
            assert(zero_words()[0] == 0 && zero_words()[1] == 0 && zero_words()[2] == 0
                && zero_words()[3] == 0);
        }
        *data = host.fetch(hash);
        // a hash without a payload is a broken slot
        host.require(data.len() > 0);
        let ghost read = host.world();
        let check = host.hash(data.as_slice(), pad);
        host.require(hash[0] == check[0]);
        host.require(hash[1] == check[1]);
        host.require(hash[2] == check[2]);
        host.require(hash[3] == check[3]);
        assert(host.world().digests =~= read.digests);
        data.len() as u64
    }

    /// Writes the payload `data` to slot `index`: hashes it under the padding
    /// mode `pad`, caches it under its hash, and writes the hash as
    /// [`Merkle::set_simple`] does.
    pub fn set<H: Host>(
        &mut self,
        host: &mut H,
        index: u32,
        data: &[u64],
        pad: bool,
        hint: Option<&[u64; 4]>,
    )
        requires
            old(host).inv(),
            old(host).world().knows(old(self).root@),
            Self::hint_holds(old(host).world(), old(self).root@, index as int, hint),
        ensures
            final(host).inv(),
            old(host).world().may_hash(data@, pad, final(host).world().digests[(data@, pad)]),
            old(host).world().may_follow(
                old(self).root@,
                index as int,
                final(host).world().digests[(data@, pad)],
                final(self).root@,
            ),
            final(host).world() == old(host).world().filed(
                data@,
                pad,
                final(host).world().digests[(data@, pad)],
            ).read_through(index as int, old(self).root@).rewritten(
                old(self).root@,
                index as int,
                final(host).world().digests[(data@, pad)],
                final(self).root@,
            ),
    {
        let hash = host.hash(data, pad);
        host.store(&hash, data);
        self.set_simple(host, index, &hash, hint);
    }

    /// Writes the payload `data` to slot `index` as [`Merkle::set`] does, but
    /// without the read before the write. For a caller whose last exchange
    /// was the read of that slot under this root.
    pub fn set_unsafe<H: Host>(&mut self, host: &mut H, index: u32, data: &[u64], pad: bool)
        requires
            old(host).inv(),
            old(host).world().knows(old(self).root@),
            old(host).world().turn == Exchange::read_done(index as int, old(self).root@),
        ensures
            final(host).inv(),
            old(host).world().may_hash(data@, pad, final(host).world().digests[(data@, pad)]),
            old(host).world().may_follow(
                old(self).root@,
                index as int,
                final(host).world().digests[(data@, pad)],
                final(self).root@,
            ),
            final(host).world() == old(host).world().filed(
                data@,
                pad,
                final(host).world().digests[(data@, pad)],
            ).rewritten(
                old(self).root@,
                index as int,
                final(host).world().digests[(data@, pad)],
                final(self).root@,
            ),
    {
        let hash = host.hash(data, pad);
        host.store(&hash, data);
        self.set_simple_unsafe(host, index, &hash);
    }
}

/// A slot cannot be read where the cache holds, under the hash in it,
/// another payload than the one that the hash is the digest of.
pub proof fn law_corrupt_payload(world: World, hash: Seq<u64>, data: Seq<u64>, pad: bool)
    requires
        world.sound(),
        world.digest_is(data, pad, hash),
        world.cached(hash) != data,
    ensures
        !Merkle::payload_fits(world, hash, pad),
{
    let found = world.cached(hash);
    if world.digest_is(found, pad, hash) {
        assert(world.digests[(found, pad)] == world.digests[(data, pad)]);
        assert((found, pad) == (data, pad));
    }
}

} // verus!
