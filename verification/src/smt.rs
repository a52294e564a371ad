//! The tree keyed by four words, with a sequence of words per value. A slot
//! holds the hash of a node: a leaf node `[0, key.., value..]`, or a tree
//! node `[1, root..]` with the root of a sub-tree. A key leads through eight
//! levels, 32 of its bits at each.

use crate::host::{
    empty_root, lemma_grows_on, lemma_grows_same, lemma_put, read_calls, slot_count, write_calls,
    zero_words, Call, Host, World,
};
use crate::merkle::Merkle;
use vstd::prelude::*;
use vstd::slice::slice_subrange;

verus! {

/// The tag of a node that holds a key and its value.
pub const LEAF_NODE: u64 = 0;

/// The tag of a node that holds the root of a sub-tree.
pub const TREE_NODE: u64 = 1;

/// What the words of a node stand for.
pub enum Node {
    /// A key with its value.
    Leaf { key: Seq<u64>, value: Seq<u64> },
    /// The root of a sub-tree.
    Tree { root: Seq<u64> },
}

/// The node that a payload of five words or more stands for: the low bit of
/// the first word is the tag, the next four words are the key or the root.
pub open spec fn node_of(payload: Seq<u64>) -> Node {
    if payload[0] & 1 == LEAF_NODE {
        Node::Leaf { key: payload.subrange(1, 5), value: payload.skip(5) }
    } else {
        Node::Tree { root: payload.subrange(1, 5) }
    }
}

/// The words of a node: the tag, the first four words of `key`, then `data`.
pub open spec fn node_words(tag: u64, key: Seq<u64>, data: Seq<u64>) -> Seq<u64> {
    seq![tag, key[0], key[1], key[2], key[3]] + data
}

/// The slot that `key` leads to at `level`: the low half of a word at an even
/// level, its high half at an odd one.
pub open spec fn segment(key: Seq<u64>, level: nat) -> int {
    let word = key[(level / 2) as int];
    if level % 2 == 0 {
        (word & 0xffff_ffff) as int
    } else {
        (word >> 32) as int
    }
}

/// The slots that `key` leads through above `level`.
pub open spec fn path_of(key: Seq<u64>, level: nat) -> Seq<int> {
    Seq::new(level, |j: int| segment(key, j as nat))
}

/// `key` leads through the slots of `path`.
pub open spec fn follows(key: Seq<u64>, path: Seq<int>) -> bool {
    forall|j: int| 0 <= j < path.len() ==> segment(key, j as nat) == #[trigger] path[j]
}

/// The value under `key` in the tree under `root`, which stands at `level`.
pub open spec fn find(world: World, root: Seq<u64>, key: Seq<u64>, level: nat) -> Option<
    Seq<u64>,
>
    decreases 8 - level,
{
    if level >= 8 {
        None
    } else {
        let hash = world.leaf(root, segment(key, level));
        let payload = world.cached(hash);
        if hash == zero_words() || payload.len() < 5 {
            None
        } else {
            match node_of(payload) {
                Node::Leaf { key: held, value } => if held == key {
                    Some(value)
                } else {
                    None
                },
                Node::Tree { root: sub } => find(world, sub, key, level + 1),
            }
        }
    }
}

/// The calls of the accumulator that the search for `key` makes: one read of
/// a leaf at each level it comes to.
pub open spec fn trail(world: World, root: Seq<u64>, key: Seq<u64>, level: nat) -> Seq<Call>
    decreases 8 - level,
{
    let slot = segment(key, level);
    let hash = world.leaf(root, slot);
    let payload = world.cached(hash);
    if level >= 8 {
        Seq::empty()
    } else if hash == zero_words() || payload.len() < 5 {
        read_calls(slot, root, hash)
    } else {
        match node_of(payload) {
            Node::Leaf { key: held, value } => read_calls(slot, root, hash),
            Node::Tree { root: sub } => read_calls(slot, root, hash) + trail(
                world,
                sub,
                key,
                level + 1,
            ),
        }
    }
}

/// The hash `hash` may stand in slot `slot` of a tree at `level` that is
/// reached through `path`: it is the zero hash, or the digest of a cached
/// node, which is a leaf whose key leads to this slot or the root of a tree
/// that the library built.
pub open spec fn slot_fits(world: World, hash: Seq<u64>, slot: int, level: nat, path: Seq<int>) -> bool
    decreases 8 - level, 0nat,
{
    hash == zero_words() || {
        let payload = world.cached(hash);
        &&& world.cache.contains_key(hash)
        &&& world.digest_is(payload, true, hash)
        &&& payload.len() >= 5
        &&& match node_of(payload) {
            Node::Leaf { key, value } => key.len() == 4 && follows(key, path.push(slot)),
            Node::Tree { root: sub } => level + 1 < 8 && tree_ok(
                world,
                sub,
                level + 1,
                path.push(slot),
            ),
        }
    }
}

/// The tree under `root` is one that the library built: the accumulator
/// knows it, each slot holds nothing or a cached node under its digest, each
/// key stands where its segments lead, and no tree stands below level 7.
pub open spec fn tree_ok(world: World, root: Seq<u64>, level: nat, path: Seq<int>) -> bool
    decreases 8 - level, 1nat,
{
    &&& level < 8
    &&& path.len() == level
    &&& world.knows(root)
    &&& forall|i: int|
        0 <= i < slot_count() ==> slot_fits(world, #[trigger] world.leaf(root, i), i, level, path)
}

/// The node in slot `slot` of the tree under `root`, where the slot holds one.
pub open spec fn node_in(world: World, root: Seq<u64>, slot: int) -> Option<Node> {
    if world.leaf(root, slot) == zero_words() {
        None
    } else {
        Some(node_of(world.cached(world.leaf(root, slot))))
    }
}

/// Slot `slot` of the tree under `root` holds the digest of `node`, and the
/// cache holds `node` under it.
pub open spec fn holds_node(world: World, root: Seq<u64>, slot: int, node: Seq<u64>) -> bool {
    &&& world.leaf(root, slot) != zero_words()
    &&& world.cache.contains_key(world.leaf(root, slot))
    &&& world.cached(world.leaf(root, slot)) == node
    &&& world.digest_is(node, true, world.leaf(root, slot))
}

/// The tree under `sub`, which stands at `level`, holds the two keys and
/// nothing else: each in a leaf node in the slot it leads to, or, where both
/// lead to one slot, in such a tree one level down, under a tree node.
pub open spec fn pair_tree(
    after: World,
    sub: Seq<u64>,
    one: Seq<u64>,
    one_value: Seq<u64>,
    other: Seq<u64>,
    other_value: Seq<u64>,
    level: nat,
) -> bool
    decreases 8 - level,
{
    let a = segment(one, level);
    let b = segment(other, level);
    let node = after.cached(after.leaf(sub, a));
    &&& level < 8
    &&& after.knows(sub)
    &&& forall|i: int| i != a && i != b ==> #[trigger] after.leaf(sub, i) == zero_words()
    &&& if a != b {
        &&& holds_node(after, sub, a, node_words(LEAF_NODE, one, one_value))
        &&& holds_node(after, sub, b, node_words(LEAF_NODE, other, other_value))
    } else {
        &&& holds_node(after, sub, a, node)
        &&& node == node_words(TREE_NODE, node.subrange(1, 5), Seq::empty())
        &&& pair_tree(after, node.subrange(1, 5), one, one_value, other, other_value, level + 1)
    }
}

/// What putting `data` under `key` makes of the tree under `root`, which
/// stands at `level`: the tree under `next` of `after`. Every slot but the
/// one that `key` leads to holds what it held. That slot holds the digest of
/// a cached node: where it held nothing, or `key`, the leaf node of `key` and
/// `data`; where it held another key, the tree node of a sub-tree with these
/// two keys and nothing else; where it held a sub-tree, the tree node of
/// what the same makes of that tree.
pub open spec fn tree_after(
    world: World,
    root: Seq<u64>,
    key: Seq<u64>,
    data: Seq<u64>,
    level: nat,
    after: World,
    next: Seq<u64>,
) -> bool
    decreases 8 - level,
{
    let slot = segment(key, level);
    let node = after.cached(after.leaf(next, slot));
    &&& level < 8
    &&& forall|i: int| i != slot ==> #[trigger] after.leaf(next, i) == world.leaf(root, i)
    &&& holds_node(after, next, slot, node)
    &&& match node_in(world, root, slot) {
        None => node == node_words(LEAF_NODE, key, data),
        Some(Node::Leaf { key: held, value }) => if held == key {
            node == node_words(LEAF_NODE, key, data)
        } else {
            &&& node == node_words(TREE_NODE, node.subrange(1, 5), Seq::empty())
            &&& pair_tree(after, node.subrange(1, 5), held, value, key, data, level + 1)
        },
        Some(Node::Tree { root: was }) => {
            &&& node == node_words(TREE_NODE, node.subrange(1, 5), Seq::empty())
            &&& tree_after(world, was, key, data, level + 1, after, node.subrange(1, 5))
        },
    }
}

/// The tree under `mid`, which stands at `level`, holds `held` with `value`
/// in a leaf node and nothing else.
pub open spec fn single_tree(
    world: World,
    mid: Seq<u64>,
    held: Seq<u64>,
    value: Seq<u64>,
    level: nat,
) -> bool {
    &&& world.knows(mid)
    &&& forall|i: int| i != segment(held, level) ==> #[trigger] world.leaf(mid, i) == zero_words()
    &&& holds_node(world, mid, segment(held, level), node_words(LEAF_NODE, held, value))
}

/// `mids` are the roots that the accumulator gave to the trees in which
/// `held` stood alone, one for each level from `level` down to the first at
/// which `held` and `key` lead to two slots.
pub open spec fn mids_ok(
    world: World,
    held: Seq<u64>,
    value: Seq<u64>,
    key: Seq<u64>,
    level: nat,
    mids: Seq<Seq<u64>>,
) -> bool
    decreases 8 - level,
{
    &&& level < 8
    &&& mids.len() > 0
    &&& single_tree(world, mids[0], held, value, level)
    &&& segment(held, level) == segment(key, level) ==> mids_ok(
        world,
        held,
        value,
        key,
        level + 1,
        mids.skip(1),
    )
}

/// `mids` are such roots for the key that a write under `key` to the tree
/// under `root` moves to a sub-tree, where it moves one.
pub open spec fn trail_ok(
    world: World,
    root: Seq<u64>,
    key: Seq<u64>,
    level: nat,
    after: World,
    mids: Seq<Seq<u64>>,
) -> bool
    decreases 8 - level,
{
    &&& level < 8
    &&& match node_in(world, root, segment(key, level)) {
        None => true,
        Some(Node::Leaf { key: held, value }) => held == key || mids_ok(
            after,
            held,
            value,
            key,
            level + 1,
            mids,
        ),
        Some(Node::Tree { root: was }) => trail_ok(world, was, key, level + 1, after, mids),
    }
}

/// The calls of the accumulator that build the tree under `sub` of two
/// keys: `held` is put in the empty tree, which gives the root `mids[0]`,
/// and `key` in the tree under that root. Where both lead to one slot, that
/// slot is read, the same is done one level down, and the slot is read again
/// and written.
pub open spec fn pair_trail(
    world: World,
    held: Seq<u64>,
    key: Seq<u64>,
    level: nat,
    sub: Seq<u64>,
    mids: Seq<Seq<u64>>,
) -> Seq<Call>
    decreases 8 - level,
{
    let a = segment(held, level);
    let b = segment(key, level);
    let mid = mids[0];
    let first = read_calls(a, empty_root(), zero_words()) + write_calls(
        a,
        empty_root(),
        world.leaf(mid, a),
        mid,
    );
    if level >= 8 || mids.len() == 0 {
        Seq::empty()
    } else if a != b {
        first + (read_calls(b, mid, zero_words()) + write_calls(b, mid, world.leaf(sub, b), sub))
    } else {
        first + (read_calls(a, mid, world.leaf(mid, a)) + pair_trail(
            world,
            held,
            key,
            level + 1,
            world.cached(world.leaf(sub, a)).subrange(1, 5),
            mids.skip(1),
        ) + read_calls(a, mid, world.leaf(mid, a)) + write_calls(a, mid, world.leaf(sub, a), sub))
    }
}

/// The calls of the accumulator that putting a value under `key` makes. A
/// slot that is empty, or holds `key`, is read and then written, without
/// another read. A slot that holds another key is read; then the sub-tree of
/// the two keys is built as [`pair_trail`] says; then the slot is read again
/// and written. A slot that holds a sub-tree is read; then the same is done
/// in the sub-tree; then the slot is read again and written.
pub open spec fn set_trail(
    world: World,
    root: Seq<u64>,
    key: Seq<u64>,
    level: nat,
    after: World,
    next: Seq<u64>,
    mids: Seq<Seq<u64>>,
) -> Seq<Call>
    decreases 8 - level,
{
    let slot = segment(key, level);
    let sub = after.cached(after.leaf(next, slot)).subrange(1, 5);
    let read = read_calls(slot, root, world.leaf(root, slot));
    let write = write_calls(slot, root, after.leaf(next, slot), next);
    if level >= 8 {
        Seq::empty()
    } else {
        match node_in(world, root, slot) {
            None => read + write,
            Some(Node::Leaf { key: held, value }) => if held == key {
                read + write
            } else {
                read + pair_trail(after, held, key, level + 1, sub, mids) + read + write
            },
            Some(Node::Tree { root: was }) => read + set_trail(
                world,
                was,
                key,
                level + 1,
                after,
                sub,
                mids,
            ) + read + write,
        }
    }
}

/// The calls of the accumulator between `world` and `after` are those of
/// putting a value under `key`, for some roots of the trees in between.
pub open spec fn set_called(
    world: World,
    root: Seq<u64>,
    key: Seq<u64>,
    level: nat,
    after: World,
    next: Seq<u64>,
) -> bool {
    exists|mids: Seq<Seq<u64>>|
        trail_ok(world, root, key, level, after, mids) && after.trace == world.trace
            + #[trigger] set_trail(world, root, key, level, after, next, mids)
}

/// The tree under `root` is a whole tree that the library built.
pub open spec fn is_tree(world: World, root: Seq<u64>) -> bool {
    tree_ok(world, root, 0, Seq::empty())
}

/// The tree as a map from keys to values.
pub open spec fn tree_map(world: World, root: Seq<u64>) -> Map<Seq<u64>, Seq<u64>> {
    Map::new(
        |key: Seq<u64>| find(world, root, key, 0) is Some,
        |key: Seq<u64>| find(world, root, key, 0)->Some_0,
    )
}

/// Putting `data` under `key` in the tree under `root` of `world` may give
/// the tree under `next` of `after`: a tree that holds `data` under `key`
/// and is otherwise the same map, with all else that [`set_done`] says.
pub open spec fn set_gives(
    world: World,
    root: Seq<u64>,
    key: Seq<u64>,
    data: Seq<u64>,
    after: World,
    next: Seq<u64>,
) -> bool {
    &&& is_tree(after, next)
    &&& tree_map(after, next) == tree_map(world, root).insert(key, data)
    &&& set_done(world, root, key, data, 0, after, next)
}

/// Whether the node in `data` is that of `key`: the four words after the tag
/// are the first four of `key`.
pub fn data_matches_key(data: &[u64], key: &[u64]) -> (b: bool)
    requires
        data@.len() >= 5,
        key@.len() >= 4,
    ensures
        b == (data@.subrange(1, 5) == key@.subrange(0, 4)),
{
    let b = data[1] == key[0] && data[2] == key[1] && data[3] == key[2] && data[4] == key[3];
    proof {
        let held = data@.subrange(1, 5);
        let wanted = key@.subrange(0, 4);
        if b {
            assert(held =~= wanted);
        } else {
            assert(held[0] != wanted[0] || held[1] != wanted[1] || held[2] != wanted[2] || held[3]
                != wanted[3]);
        }
    }
    b
}

/// Writes to the front of `node_buf` the node of tag `t`, the first four
/// words of `key`, and `data`. What stands behind the node stays.
pub fn set_smt_data(node_buf: &mut Vec<u64>, t: u64, key: &[u64], data: &[u64])
    requires
        key@.len() >= 4,
        old(node_buf)@.len() >= 5 + data@.len(),
    ensures
        final(node_buf)@ == node_words(t, key@, data@) + old(node_buf)@.skip(5 + data@.len() as int),
{
    node_buf[0] = t;
    node_buf[1] = key[0];
    node_buf[2] = key[1];
    node_buf[3] = key[2];
    node_buf[4] = key[3];
    let mut i: usize = 0;
    while i < data.len()
        invariant
            i <= data@.len(),
            key@.len() >= 4,
            old(node_buf)@.len() >= 5 + data@.len(),
            node_buf.len() == old(node_buf)@.len(),
            node_buf@ == node_words(t, key@, data@.take(i as int)) + old(node_buf)@.skip(5 + i as int),
        decreases data@.len() - i,
    {
        node_buf[5 + i] = data[i];
        proof {
            assert(data@.take(i + 1) =~= data@.take(i as int).push(data@[i as int]));
            assert(node_buf@ =~= node_words(t, key@, data@.take(i + 1)) + old(node_buf)@.skip(
                5 + i as int + 1,
            ));
        }
        i += 1;
    }
    assert(data@.take(i as int) =~= data@);
}

proof fn lemma_segment_in_range(key: Seq<u64>, level: nat)
    ensures
        0 <= segment(key, level) < slot_count(),
{
    let word = key[(level / 2) as int];
    assert(word & 0xffff_ffff < 0x1_0000_0000) by (bit_vector);
    assert(word >> 32 < 0x1_0000_0000) by (bit_vector);
}

/// A tree that the library built is the same tree, with the same values,
/// in every world that the first has grown to.
pub proof fn lemma_grown(world: World, next: World, root: Seq<u64>, level: nat, path: Seq<int>)
    requires
        world.grows_to(next),
        tree_ok(world, root, level, path),
    ensures
        tree_ok(next, root, level, path),
        forall|key: Seq<u64>| find(next, root, key, level) == find(world, root, key, level),
        forall|key: Seq<u64>| trail(next, root, key, level) == trail(world, root, key, level),
    decreases 8 - level,
{
    assert forall|key: Seq<u64>| trail(next, root, key, level) == trail(
        world,
        root,
        key,
        level,
    ) by {
        let i = segment(key, level);
        lemma_segment_in_range(key, level);
        let hash = world.leaf(root, i);
        assert(next.leaf(root, i) == hash);
        assert(slot_fits(world, hash, i, level, path));
        if hash != zero_words() {
            assert(world.holds_true(hash));
            if let Node::Tree { root: sub } = node_of(world.cached(hash)) {
                lemma_grown(world, next, sub, level + 1, path.push(i));
                assert(trail(next, sub, key, level + 1) == trail(world, sub, key, level + 1));
            }
        }
    }
    assert forall|i: int| 0 <= i < slot_count() implies slot_fits(
        next,
        #[trigger] next.leaf(root, i),
        i,
        level,
        path,
    ) by {
        let hash = world.leaf(root, i);
        assert(next.leaf(root, i) == hash);
        assert(slot_fits(world, hash, i, level, path));
        if hash != zero_words() {
            assert(world.holds_true(hash));
            if let Node::Tree { root: sub } = node_of(world.cached(hash)) {
                lemma_grown(world, next, sub, level + 1, path.push(i));
            }
        }
    }
    assert forall|key: Seq<u64>| find(next, root, key, level) == find(
        world,
        root,
        key,
        level,
    ) by {
        let i = segment(key, level);
        lemma_segment_in_range(key, level);
        let hash = world.leaf(root, i);
        assert(next.leaf(root, i) == hash);
        assert(slot_fits(world, hash, i, level, path));
        if hash != zero_words() {
            assert(world.holds_true(hash));
            match node_of(world.cached(hash)) {
                Node::Tree { root: sub } => {
                    lemma_grown(world, next, sub, level + 1, path.push(i));
                    assert(find(next, sub, key, level + 1) == find(world, sub, key, level + 1));
                },
                Node::Leaf { key: held, value } => {},
            }
        }
    }
}

/// The tree in which no slot was written is a tree that the library built,
/// and holds nothing.
proof fn lemma_empty(world: World, level: nat, path: Seq<int>)
    requires
        world.sound(),
        level < 8,
        path.len() == level,
    ensures
        tree_ok(world, empty_root(), level, path),
        forall|key: Seq<u64>| find(world, empty_root(), key, level) is None,
{
    assert forall|i: int| world.leaf(empty_root(), i) == zero_words() by {}
}

/// Two keys of four words that lead through the same slots at all eight
/// levels are one key.
pub proof fn lemma_segments_make_key(a: Seq<u64>, b: Seq<u64>)
    requires
        a.len() == 4,
        b.len() == 4,
        forall|level: nat| level < 8 ==> segment(a, level) == segment(b, level),
    ensures
        a == b,
{
    assert forall|i: int| 0 <= i < 4 implies a[i] == b[i] by {
        let x = a[i];
        let y = b[i];
        assert(segment(a, (2 * i) as nat) == segment(b, (2 * i) as nat));
        assert(segment(a, (2 * i + 1) as nat) == segment(b, (2 * i + 1) as nat));
        assert((x & 0xffff_ffff) == (y & 0xffff_ffff) && (x >> 32) == (y >> 32) ==> x == y)
            by (bit_vector);
    }
    assert(a =~= b);
}

/// A tree with the hash of one slot replaced by a fitting one is a tree that
/// the library built, and holds the same value under every key that leads to
/// another slot.
proof fn lemma_slot_replaced(
    world: World,
    root: Seq<u64>,
    level: nat,
    path: Seq<int>,
    next: World,
    next_root: Seq<u64>,
    slot: int,
    hash: Seq<u64>,
)
    requires
        tree_ok(world, root, level, path),
        world.grows_to(next),
        next.knows(next_root),
        forall|i: int| #[trigger]
            next.leaf(next_root, i) == if i == slot {
                hash
            } else {
                world.leaf(root, i)
            },
        slot_fits(next, hash, slot, level, path),
    ensures
        tree_ok(next, next_root, level, path),
        forall|key: Seq<u64>|
            segment(key, level) != slot ==> find(next, next_root, key, level) == find(
                world,
                root,
                key,
                level,
            ),
{
    lemma_grown(world, next, root, level, path);
    assert forall|i: int| 0 <= i < slot_count() implies slot_fits(
        next,
        #[trigger] next.leaf(next_root, i),
        i,
        level,
        path,
    ) by {
        if i != slot {
            assert(next.leaf(next_root, i) == next.leaf(root, i));
        }
    }
    assert forall|key: Seq<u64>| segment(key, level) != slot implies find(
        next,
        next_root,
        key,
        level,
    ) == find(world, root, key, level) by {
        let i = segment(key, level);
        assert(next.leaf(next_root, i) == next.leaf(root, i));
        assert(find(next, next_root, key, level) == find(next, root, key, level));
    }
}

/// The node `node` may stand in slot `slot` of a tree at `level` that is
/// reached through `path`.
pub open spec fn node_fits(world: World, node: Seq<u64>, slot: int, level: nat, path: Seq<int>) -> bool {
    &&& node.len() >= 5
    &&& match node_of(node) {
        Node::Leaf { key, value } => key.len() == 4 && follows(key, path.push(slot)),
        Node::Tree { root: sub } => level + 1 < 8 && tree_ok(
            world,
            sub,
            level + 1,
            path.push(slot),
        ),
    }
}

/// What a tree holds under `key` where the slot that `key` leads to holds
/// `node`.
pub open spec fn find_in_node(world: World, node: Seq<u64>, key: Seq<u64>, level: nat) -> Option<
    Seq<u64>,
> {
    match node_of(node) {
        Node::Leaf { key: held, value } => if held == key {
            Some(value)
        } else {
            None
        },
        Node::Tree { root: sub } => find(world, sub, key, level + 1),
    }
}

/// A tree in which a fitting node was put in one slot is a tree that the
/// library built. Under a key that leads to that slot it holds what the node
/// holds, under any other key what it held before.
proof fn lemma_node_put(
    world: World,
    root: Seq<u64>,
    level: nat,
    path: Seq<int>,
    slot: int,
    node: Seq<u64>,
    hash: Seq<u64>,
    next: Seq<u64>,
    mid: World,
    after: World,
)
    requires
        world.sound(),
        tree_ok(world, root, level, path),
        node_fits(world, node, slot, level, path),
        world.may_hash(node, true, hash),
        world.may_follow(root, slot, hash, next),
        mid.same_store(world.filed(node, true, hash)),
        after == mid.rewritten(root, slot, hash, next),
        after.sound(),
    ensures
        world.grows_to(after),
        tree_ok(after, next, level, path),
        node_in(after, next, slot) == Some(node_of(node)),
        holds_node(after, next, slot, node),
        forall|i: int| i != slot ==> #[trigger] after.leaf(next, i) == world.leaf(root, i),
        forall|key: Seq<u64>|
            find(after, next, key, level) == if segment(key, level) == slot {
                find_in_node(world, node, key, level)
            } else {
                find(world, root, key, level)
            },
{
    lemma_put(world, root, slot, node, true, hash, next, mid, after);
    assert(after.leaf(next, slot) == hash);
    if let Node::Tree { root: sub } = node_of(node) {
        lemma_grown(world, after, sub, level + 1, path.push(slot));
    }
    assert(slot_fits(after, hash, slot, level, path));
    lemma_slot_replaced(world, root, level, path, after, next, slot, hash);
    assert forall|key: Seq<u64>| segment(key, level) == slot implies find(
        after,
        next,
        key,
        level,
    ) == find_in_node(world, node, key, level) by {
        assert(after.leaf(next, slot) == hash);
    }
}

/// The key of a leaf node that stands in the slot that `key` leads to leads
/// through the same slots as `key`, down to that level.
proof fn lemma_shared_path(held: Seq<u64>, key: Seq<u64>, level: nat)
    requires
        follows(held, path_of(key, level).push(segment(key, level))),
    ensures
        path_of(held, level + 1) == path_of(key, level + 1),
        path_of(key, level).push(segment(key, level)) == path_of(key, level + 1),
        forall|j: nat| j <= level ==> segment(held, j) == segment(key, j),
{
    let path = path_of(key, level).push(segment(key, level));
    assert(path =~= path_of(key, level + 1));
    assert forall|j: nat| j <= level implies segment(held, j) == segment(key, j) by {
        assert(segment(held, j) == path[j as int]);
    }
    assert(path_of(held, level + 1) =~= path_of(key, level + 1));
}

/// A node in a slot of a known tree is there in every world that the first
/// has grown to.
proof fn lemma_node_moves(mid: World, after: World, root: Seq<u64>, slot: int, node: Seq<u64>)
    requires
        mid.grows_to(after),
        mid.knows(root),
        holds_node(mid, root, slot, node),
    ensures
        holds_node(after, root, slot, node),
{
    assert(mid.holds_true(mid.leaf(root, slot)));
}

/// A tree of two keys is one in every world that the first has grown to.
proof fn lemma_pair_moves(
    mid: World,
    after: World,
    sub: Seq<u64>,
    one: Seq<u64>,
    one_value: Seq<u64>,
    other: Seq<u64>,
    other_value: Seq<u64>,
    level: nat,
)
    requires
        mid.grows_to(after),
        pair_tree(mid, sub, one, one_value, other, other_value, level),
    ensures
        pair_tree(after, sub, one, one_value, other, other_value, level),
    decreases 8 - level,
{
    let a = segment(one, level);
    let b = segment(other, level);
    let node = mid.cached(mid.leaf(sub, a));
    assert forall|i: int| #[trigger] after.leaf(sub, i) == mid.leaf(sub, i) by {}
    if a != b {
        lemma_node_moves(mid, after, sub, a, node_words(LEAF_NODE, one, one_value));
        lemma_node_moves(mid, after, sub, b, node_words(LEAF_NODE, other, other_value));
    } else {
        lemma_node_moves(mid, after, sub, a, node);
        lemma_pair_moves(
            mid,
            after,
            node.subrange(1, 5),
            one,
            one_value,
            other,
            other_value,
            level + 1,
        );
    }
}

/// What a write made of a tree stays so where the world before is seen with
/// another exchange in progress, and in every world that the world after has
/// grown to.
proof fn lemma_after_moves(
    world: World,
    other: World,
    root: Seq<u64>,
    key: Seq<u64>,
    data: Seq<u64>,
    level: nat,
    mid: World,
    after: World,
    next: Seq<u64>,
    path: Seq<int>,
)
    requires
        other.same_store(world),
        tree_ok(mid, next, level, path),
        mid.grows_to(after),
        tree_after(world, root, key, data, level, mid, next),
    ensures
        tree_after(other, root, key, data, level, after, next),
    decreases 8 - level,
{
    let slot = segment(key, level);
    lemma_segment_in_range(key, level);
    let node = mid.cached(mid.leaf(next, slot));
    assert forall|i: int| i != slot implies #[trigger] after.leaf(next, i) == other.leaf(
        root,
        i,
    ) by {
        assert(mid.leaf(next, i) == world.leaf(root, i));
    }
    assert(after.leaf(next, slot) == mid.leaf(next, slot));
    lemma_node_moves(mid, after, next, slot, node);
    assert(node_in(other, root, slot) == node_in(world, root, slot));
    assert(TREE_NODE & 1 != LEAF_NODE) by (bit_vector);
    match node_in(world, root, slot) {
        None => {},
        Some(Node::Leaf { key: held, value }) => {
            if held != key {
                lemma_pair_moves(mid, after, node.subrange(1, 5), held, value, key, data, level + 1);
            }
        },
        Some(Node::Tree { root: was }) => {
            assert(slot_fits(mid, mid.leaf(next, slot), slot, level, path));
            lemma_after_moves(
                world,
                other,
                was,
                key,
                data,
                level + 1,
                mid,
                after,
                node.subrange(1, 5),
                path.push(slot),
            );
        },
    }
}

/// Putting one key and then another in the empty tree gives a tree of these
/// two keys.
proof fn lemma_pair_built(
    world: World,
    first: World,
    first_root: Seq<u64>,
    second: World,
    second_root: Seq<u64>,
    held: Seq<u64>,
    value: Seq<u64>,
    key: Seq<u64>,
    data: Seq<u64>,
    level: nat,
)
    requires
        world.sound(),
        held.len() == 4,
        held != key,
        first.knows(first_root),
        second.knows(second_root),
        first.grows_to(second),
        tree_after(world, empty_root(), held, value, level, first, first_root),
        tree_after(first, first_root, key, data, level, second, second_root),
    ensures
        pair_tree(second, second_root, held, value, key, data, level),
{
    let a = segment(held, level);
    let b = segment(key, level);
    let node = node_words(LEAF_NODE, held, value);
    assert forall|i: int| world.leaf(empty_root(), i) == zero_words() by {}
    assert(node_in(world, empty_root(), a) is None);
    assert(holds_node(first, first_root, a, node));
    lemma_node_moves(first, second, first_root, a, node);
    assert(second.leaf(first_root, a) == first.leaf(first_root, a));
    assert(LEAF_NODE & 1 == LEAF_NODE) by (bit_vector);
    assert(node.subrange(1, 5) =~= held);
    assert(node.skip(5) =~= value);
    if a != b {
        assert(first.leaf(first_root, b) == world.leaf(empty_root(), b));
        assert(node_in(first, first_root, b) is None);
        assert(second.leaf(second_root, a) == first.leaf(first_root, a));
    } else {
        assert(node_in(first, first_root, a) == Some(Node::Leaf { key: held, value }));
    }
    assert forall|i: int| i != a && i != b implies #[trigger] second.leaf(second_root, i)
        == zero_words() by {
        assert(second.leaf(second_root, i) == first.leaf(first_root, i));
        assert(first.leaf(first_root, i) == world.leaf(empty_root(), i));
    }
}

/// The calls that build a tree of two keys, and the roots in between, are
/// the same in every world that the first has grown to.
proof fn lemma_pair_trail_moves(
    world: World,
    next: World,
    held: Seq<u64>,
    value: Seq<u64>,
    key: Seq<u64>,
    data: Seq<u64>,
    level: nat,
    sub: Seq<u64>,
    mids: Seq<Seq<u64>>,
)
    requires
        world.grows_to(next),
        pair_tree(world, sub, held, value, key, data, level),
        mids_ok(world, held, value, key, level, mids),
    ensures
        pair_trail(next, held, key, level, sub, mids) == pair_trail(
            world,
            held,
            key,
            level,
            sub,
            mids,
        ),
        mids_ok(next, held, value, key, level, mids),
    decreases 8 - level,
{
    let a = segment(held, level);
    let b = segment(key, level);
    let mid = mids[0];
    assert forall|i: int| #[trigger] next.leaf(mid, i) == world.leaf(mid, i) by {}
    assert forall|i: int| #[trigger] next.leaf(sub, i) == world.leaf(sub, i) by {}
    lemma_node_moves(world, next, mid, a, node_words(LEAF_NODE, held, value));
    if a == b {
        let node = world.cached(world.leaf(sub, a));
        lemma_node_moves(world, next, sub, a, node);
        lemma_pair_trail_moves(
            world,
            next,
            held,
            value,
            key,
            data,
            level + 1,
            node.subrange(1, 5),
            mids.skip(1),
        );
    }
}

/// The calls of a write, and the roots in between, stay what they are where
/// the world before is seen with another exchange in progress, and in every
/// world that the world after has grown to.
proof fn lemma_trail_moves(
    world: World,
    other: World,
    root: Seq<u64>,
    key: Seq<u64>,
    data: Seq<u64>,
    level: nat,
    mid: World,
    after: World,
    next: Seq<u64>,
    mids: Seq<Seq<u64>>,
    path: Seq<int>,
)
    requires
        other.same_store(world),
        tree_ok(world, root, level, path),
        tree_ok(mid, next, level, path),
        mid.grows_to(after),
        tree_after(world, root, key, data, level, mid, next),
        trail_ok(world, root, key, level, mid, mids),
    ensures
        set_trail(other, root, key, level, after, next, mids) == set_trail(
            world,
            root,
            key,
            level,
            mid,
            next,
            mids,
        ),
        trail_ok(other, root, key, level, after, mids),
    decreases 8 - level,
{
    let slot = segment(key, level);
    lemma_segment_in_range(key, level);
    let node = mid.cached(mid.leaf(next, slot));
    assert(after.leaf(next, slot) == mid.leaf(next, slot));
    lemma_node_moves(mid, after, next, slot, node);
    assert(other.leaf(root, slot) == world.leaf(root, slot));
    assert(node_in(other, root, slot) == node_in(world, root, slot));
    assert(TREE_NODE & 1 != LEAF_NODE) by (bit_vector);
    match node_in(world, root, slot) {
        None => {},
        Some(Node::Leaf { key: held, value }) => {
            if held != key {
                lemma_pair_trail_moves(
                    mid,
                    after,
                    held,
                    value,
                    key,
                    data,
                    level + 1,
                    node.subrange(1, 5),
                    mids,
                );
            }
        },
        Some(Node::Tree { root: was }) => {
            assert(slot_fits(world, world.leaf(root, slot), slot, level, path));
            assert(slot_fits(mid, mid.leaf(next, slot), slot, level, path));
            lemma_trail_moves(
                world,
                other,
                was,
                key,
                data,
                level + 1,
                mid,
                after,
                node.subrange(1, 5),
                mids,
                path.push(slot),
            );
        },
    }
}

/// The calls that put one key and then another in the empty tree are those
/// that build a tree of the two keys.
proof fn lemma_pair_trail_built(
    world: World,
    first: World,
    first_root: Seq<u64>,
    second: World,
    second_root: Seq<u64>,
    held: Seq<u64>,
    value: Seq<u64>,
    key: Seq<u64>,
    data: Seq<u64>,
    level: nat,
    ones: Seq<Seq<u64>>,
    mids: Seq<Seq<u64>>,
)
    requires
        world.sound(),
        held.len() == 4,
        held != key,
        first.knows(first_root),
        second.knows(second_root),
        first.grows_to(second),
        tree_after(world, empty_root(), held, value, level, first, first_root),
        tree_after(first, first_root, key, data, level, second, second_root),
        trail_ok(first, first_root, key, level, second, mids),
    ensures
        set_trail(world, empty_root(), held, level, first, first_root, ones) + set_trail(
            first,
            first_root,
            key,
            level,
            second,
            second_root,
            mids,
        ) == pair_trail(second, held, key, level, second_root, seq![first_root] + mids),
        mids_ok(second, held, value, key, level, seq![first_root] + mids),
{
    let a = segment(held, level);
    let b = segment(key, level);
    let node = node_words(LEAF_NODE, held, value);
    let all = seq![first_root] + mids;
    assert(all[0] == first_root);
    assert(all.skip(1) =~= mids);
    assert forall|i: int| world.leaf(empty_root(), i) == zero_words() by {}
    assert(node_in(world, empty_root(), a) is None);
    assert(holds_node(first, first_root, a, node));
    lemma_node_moves(first, second, first_root, a, node);
    assert forall|i: int| #[trigger] second.leaf(first_root, i) == first.leaf(first_root, i) by {}
    assert(LEAF_NODE & 1 == LEAF_NODE) by (bit_vector);
    assert(node.subrange(1, 5) =~= held);
    assert(node.skip(5) =~= value);
    assert forall|i: int| i != a implies #[trigger] second.leaf(first_root, i)
        == zero_words() by {
        assert(first.leaf(first_root, i) == world.leaf(empty_root(), i));
    }
    assert(single_tree(second, first_root, held, value, level));
    if a != b {
        assert(first.leaf(first_root, b) == world.leaf(empty_root(), b));
        assert(node_in(first, first_root, b) is None);
    } else {
        assert(node_in(first, first_root, a) == Some(Node::Leaf { key: held, value }));
    }
    assert(set_trail(world, empty_root(), held, level, first, first_root, ones) + set_trail(
        first,
        first_root,
        key,
        level,
        second,
        second_root,
        mids,
    ) =~= pair_trail(second, held, key, level, second_root, all));
}

/// All that putting `data` under `key` in the tree under `root` of `world`,
/// which stands at `level`, leaves behind: the tree under `next` of `after`
/// is one that the library built, holds `data` under `key` and under every
/// other key what the old tree held, has the leaves and nodes that
/// [`tree_after`] says, and came about through the calls that [`set_trail`]
/// says, in a world that `world` has grown to.
pub open spec fn set_done(
    world: World,
    root: Seq<u64>,
    key: Seq<u64>,
    data: Seq<u64>,
    level: nat,
    after: World,
    next: Seq<u64>,
) -> bool {
    &&& world.grows_to(after)
    &&& tree_ok(after, next, level, path_of(key, level))
    &&& forall|k: Seq<u64>|
        find(after, next, k, level) == if k == key {
            Some(data)
        } else {
            find(world, root, k, level)
        }
    &&& tree_after(world, root, key, data, level, after, next)
    &&& set_called(world, root, key, level, after, next)
}

/// The write of the leaf node to a slot that was empty, or held the key,
/// does all that [`set_done`] says.
proof fn lemma_leaf_done(
    before: World,
    root: Seq<u64>,
    key: Seq<u64>,
    data: Seq<u64>,
    level: nat,
    hash: Seq<u64>,
    next: Seq<u64>,
    after: World,
)
    requires
        key.len() == 4,
        before.sound(),
        after.sound(),
        tree_ok(before, root, level, path_of(key, level)),
        match node_in(before, root, segment(key, level)) {
            None => true,
            Some(Node::Leaf { key: held, value }) => held == key,
            Some(Node::Tree { root: sub }) => false,
        },
        before.may_hash(node_words(LEAF_NODE, key, data), true, hash),
        before.may_follow(root, segment(key, level), hash, next),
        after == before.read_through(segment(key, level), root).filed(
            node_words(LEAF_NODE, key, data),
            true,
            hash,
        ).rewritten(root, segment(key, level), hash, next),
    ensures
        set_done(before, root, key, data, level, after, next),
{
    let slot = segment(key, level);
    let path = path_of(key, level);
    let read = before.read_through(slot, root);
    let node = node_words(LEAF_NODE, key, data);
    lemma_segment_in_range(key, level);
    assert(LEAF_NODE & 1 == LEAF_NODE) by (bit_vector);
    lemma_grows_same(before, read);
    lemma_grown(before, read, root, level, path);
    assert(node.subrange(1, 5) =~= key);
    assert(node.skip(5) =~= data);
    assert(path.push(slot) =~= path_of(key, level + 1));
    lemma_node_put(read, root, level, path, slot, node, hash, next, read.filed(node, true, hash), after);
    lemma_grows_on(before, read, after);
    assert(node_in(read, root, slot) == node_in(before, root, slot));
    let none = Seq::<Seq<u64>>::empty();
    assert(after.trace =~= before.trace + set_trail(before, root, key, level, after, next, none));
    assert(trail_ok(before, root, key, level, after, none));
}

/// The move of two keys from one slot to a sub-tree does all that
/// [`set_done`] says.
proof fn lemma_split_done(
    before: World,
    root: Seq<u64>,
    key: Seq<u64>,
    data: Seq<u64>,
    level: nat,
    first: World,
    first_root: Seq<u64>,
    second: World,
    sub_root: Seq<u64>,
    hash: Seq<u64>,
    next: Seq<u64>,
    after: World,
)
    requires
        key.len() == 4,
        before.sound(),
        second.sound(),
        after.sound(),
        tree_ok(before, root, level, path_of(key, level)),
        node_in(before, root, segment(key, level)) matches Some(Node::Leaf { key: held, value })
            && held != key && set_done(
            before.read_through(segment(key, level), root),
            empty_root(),
            held,
            value,
            level + 1,
            first,
            first_root,
        ),
        set_done(first, first_root, key, data, level + 1, second, sub_root),
        second.may_hash(node_words(TREE_NODE, sub_root, Seq::empty()), true, hash),
        second.may_follow(root, segment(key, level), hash, next),
        after == second.filed(node_words(TREE_NODE, sub_root, Seq::empty()), true, hash).read_through(
            segment(key, level),
            root,
        ).rewritten(root, segment(key, level), hash, next),
    ensures
        set_done(before, root, key, data, level, after, next),
{
    let slot = segment(key, level);
    let path = path_of(key, level);
    let read = before.read_through(slot, root);
    let node = node_words(TREE_NODE, sub_root, Seq::empty());
    let held = node_in(before, root, slot)->Some_0->Leaf_key;
    let value = node_in(before, root, slot)->Some_0->Leaf_value;
    lemma_segment_in_range(key, level);
    assert(LEAF_NODE & 1 == LEAF_NODE && TREE_NODE & 1 != LEAF_NODE) by (bit_vector);
    assert(slot_fits(before, before.leaf(root, slot), slot, level, path));
    assert(path.push(slot) =~= path_of(key, level + 1));
    lemma_shared_path(held, key, level);
    lemma_grows_same(before, read);
    lemma_grown(before, read, root, level, path);
    lemma_grows_on(read, first, second);
    lemma_grown(read, second, root, level, path);
    assert(sub_root.len() == 4);
    assert(node.subrange(1, 5) =~= sub_root);
    lemma_node_put(
        second,
        root,
        level,
        path,
        slot,
        node,
        hash,
        next,
        second.filed(node, true, hash).read_through(slot, root),
        after,
    );
    lemma_grows_on(read, second, after);
    lemma_grows_on(before, read, after);
    assert forall|k: Seq<u64>| segment(k, level) == slot implies find(
        second,
        sub_root,
        k,
        level + 1,
    ) == if k == key {
        Some(data)
    } else {
        find(before, root, k, level)
    } by {
        lemma_empty(read, level + 1, path_of(key, level + 1));
        assert(find(read, empty_root(), k, level + 1) is None);
        assert(find(before, root, k, level) == if k == held {
            Some(value)
        } else {
            None
        });
    }
    lemma_pair_built(read, first, first_root, second, sub_root, held, value, key, data, level + 1);
    lemma_pair_moves(second, after, sub_root, held, value, key, data, level + 1);
    assert(forall|i: int| i != slot ==> #[trigger] second.leaf(root, i) == before.leaf(root, i));
    // the calls
    let ones = choose|mids: Seq<Seq<u64>>|
        trail_ok(read, empty_root(), held, level + 1, first, mids) && first.trace == read.trace
            + #[trigger] set_trail(read, empty_root(), held, level + 1, first, first_root, mids);
    let twos = choose|mids: Seq<Seq<u64>>|
        trail_ok(first, first_root, key, level + 1, second, mids) && second.trace == first.trace
            + #[trigger] set_trail(first, first_root, key, level + 1, second, sub_root, mids);
    let all = seq![first_root] + twos;
    lemma_pair_trail_built(
        read,
        first,
        first_root,
        second,
        sub_root,
        held,
        value,
        key,
        data,
        level + 1,
        ones,
        twos,
    );
    lemma_pair_trail_moves(second, after, held, value, key, data, level + 1, sub_root, all);
    assert(second.leaf(root, slot) == before.leaf(root, slot));
    assert(after.cached(after.leaf(next, slot)) == node);
    assert(after.trace =~= before.trace + set_trail(before, root, key, level, after, next, all));
    assert(trail_ok(before, root, key, level, after, all));
}

/// The write of a key to a sub-tree, and of the node of the sub-tree to the
/// slot, does all that [`set_done`] says.
proof fn lemma_branch_done(
    before: World,
    root: Seq<u64>,
    key: Seq<u64>,
    data: Seq<u64>,
    level: nat,
    second: World,
    sub_root: Seq<u64>,
    hash: Seq<u64>,
    next: Seq<u64>,
    after: World,
)
    requires
        key.len() == 4,
        before.sound(),
        second.sound(),
        after.sound(),
        tree_ok(before, root, level, path_of(key, level)),
        node_in(before, root, segment(key, level)) matches Some(Node::Tree { root: was })
            && set_done(
            before.read_through(segment(key, level), root),
            was,
            key,
            data,
            level + 1,
            second,
            sub_root,
        ),
        second.may_hash(node_words(TREE_NODE, sub_root, Seq::empty()), true, hash),
        second.may_follow(root, segment(key, level), hash, next),
        after == second.filed(node_words(TREE_NODE, sub_root, Seq::empty()), true, hash).read_through(
            segment(key, level),
            root,
        ).rewritten(root, segment(key, level), hash, next),
    ensures
        set_done(before, root, key, data, level, after, next),
{
    let slot = segment(key, level);
    let path = path_of(key, level);
    let read = before.read_through(slot, root);
    let node = node_words(TREE_NODE, sub_root, Seq::empty());
    let sub_before = node_in(before, root, slot)->Some_0->Tree_root;
    lemma_segment_in_range(key, level);
    assert(LEAF_NODE & 1 == LEAF_NODE && TREE_NODE & 1 != LEAF_NODE) by (bit_vector);
    assert(slot_fits(before, before.leaf(root, slot), slot, level, path));
    assert(path.push(slot) =~= path_of(key, level + 1));
    lemma_grows_same(before, read);
    lemma_grown(before, read, root, level, path);
    lemma_grown(before, read, sub_before, level + 1, path_of(key, level + 1));
    lemma_grown(read, second, root, level, path);
    assert(sub_root.len() == 4);
    assert(node.subrange(1, 5) =~= sub_root);
    lemma_node_put(
        second,
        root,
        level,
        path,
        slot,
        node,
        hash,
        next,
        second.filed(node, true, hash).read_through(slot, root),
        after,
    );
    lemma_grows_on(read, second, after);
    lemma_grows_on(before, read, after);
    assert forall|k: Seq<u64>| segment(k, level) == slot implies find(before, root, k, level)
        == find(read, sub_before, k, level + 1) by {}
    lemma_after_moves(
        read,
        before,
        sub_before,
        key,
        data,
        level + 1,
        second,
        after,
        sub_root,
        path_of(key, level + 1),
    );
    assert(forall|i: int| i != slot ==> #[trigger] second.leaf(root, i) == before.leaf(root, i));
    // the calls
    let inner = choose|mids: Seq<Seq<u64>>|
        trail_ok(read, sub_before, key, level + 1, second, mids) && second.trace == read.trace
            + #[trigger] set_trail(read, sub_before, key, level + 1, second, sub_root, mids);
    lemma_trail_moves(
        read,
        before,
        sub_before,
        key,
        data,
        level + 1,
        second,
        after,
        sub_root,
        inner,
        path_of(key, level + 1),
    );
    assert(second.leaf(root, slot) == before.leaf(root, slot));
    assert(after.cached(after.leaf(next, slot)) == node);
    assert(after.trace =~= before.trace + set_trail(before, root, key, level, after, next, inner));
    assert(trail_ok(before, root, key, level, after, inner));
}

impl Merkle {
    /// Looks `key` up in the tree at level `path_index`. `data` receives the
    /// value, and is empty where the tree holds none; the result is its
    /// length.
    pub fn smt_get_local<H: Host>(
        &mut self,
        host: &mut H,
        key: &[u64; 4],
        path_index: usize,
        data: &mut Vec<u64>,
    ) -> (len: u64)
        requires
            old(host).inv(),
            path_index < 8,
            tree_ok(
                old(host).world(),
                old(self).root@,
                path_index as nat,
                path_of(key@, path_index as nat),
            ),
        ensures
            final(host).inv(),
            *final(self) == *old(self),
            final(host).world().same_store(old(host).world()),
            final(host).world().trace == old(host).world().trace + trail(
                old(host).world(),
                old(self).root@,
                key@,
                path_index as nat,
            ),
            tree_ok(
                final(host).world(),
                old(self).root@,
                path_index as nat,
                path_of(key@, path_index as nat),
            ),
            len == final(data)@.len(),
            final(data)@ == match find(
                old(host).world(),
                old(self).root@,
                key@,
                path_index as nat,
            ) {
                Some(value) => value,
                None => Seq::empty(),
            },
        decreases 8 - path_index,
    {
        let ghost level = path_index as nat;
        let ghost before = old(host).world();
        let word = key[path_index / 2];
        let local_index = #[verifier::truncate] ((word >> (32 * (path_index % 2))) as u32);
        proof {
            lemma_segment_in_range(key@, level);
            assert(word >> 0 == word) by (bit_vector);
            assert((word as u32) as int == (word & 0xffff_ffff) as int) by (bit_vector);
            assert(((word >> 32) as u32) as int == (word >> 32) as int) by (bit_vector);
            host.inv_is_sound();
        }
        let ghost slot = local_index as int;
        assert(slot == segment(key@, level));
        let ghost held_hash = before.leaf(self.root@, slot);
        assert(slot_fits(before, held_hash, slot, level, path_of(key@, level)));
        let mut hash = [0u64; 4];
        // the node may be the root of a sub-tree: it is hashed with padding
        let len = self.get(host, local_index, data, &mut hash, true);
        proof {
            lemma_grows_same(before, host.world());
            lemma_grown(before, host.world(), self.root@, level, path_of(key@, level));
        }
        if len == 0 {
            return 0;
        }
        if (data[0] & 0x1) == LEAF_NODE {
            if data_matches_key(data.as_slice(), key) {
                let ghost node = data@;
                assert(node.subrange(1, 5) =~= key@) by {
                    assert(key@.subrange(0, 4) =~= key@);
                }
                let n = data.len() - 5;
                let mut i: usize = 0;
                while i < n
                    invariant
                        i <= n,
                        n + 5 == node.len(),
                        node.len() <= usize::MAX,
                        data@.len() == node.len(),
                        forall|j: int| 0 <= j < i ==> data@[j] == node[j + 5],
                        forall|j: int| i <= j < node.len() ==> data@[j] == node[j],
                    decreases n - i,
                {
                    data[i] = data[i + 5];
                    i += 1;
                }
                data.truncate(n);
                assert(data@ =~= node.skip(5));
                n as u64
            } else {
                assert(data@.subrange(1, 5) != key@) by {
                    assert(key@.subrange(0, 4) =~= key@);
                }
                data.clear();
                0
            }
        } else {
            let ghost node = data@;
            let mut sub_merkle = Merkle::load([data[1], data[2], data[3], data[4]]);
            proof {
                assert(sub_merkle.root@ =~= node.subrange(1, 5));
                assert(path_of(key@, level).push(slot) =~= path_of(key@, level + 1));
                lemma_grown(before, host.world(), sub_merkle.root@, level + 1, path_of(key@, level + 1));
            }
            let ghost read = host.world();
            let len = sub_merkle.smt_get_local(host, key, path_index + 1, data);
            proof {
                lemma_grows_same(read, host.world());
                lemma_grown(read, host.world(), self.root@, level, path_of(key@, level));
                assert(host.world().trace =~= old(host).world().trace + trail(
                    before,
                    self.root@,
                    key@,
                    level,
                ));
            }
            len
        }
    }

    /// Puts `data` under `key` in the tree at level `path_index`. A slot that
    /// is empty, or holds `key`, receives the leaf node. A slot that holds
    /// another key becomes a sub-tree with both keys, one level down. A slot
    /// that holds a sub-tree receives the root of that tree after the same
    /// was done in it.
    pub fn smt_set_local<H: Host>(
        &mut self,
        host: &mut H,
        key: &[u64; 4],
        path_index: usize,
        data: &[u64],
    )
        requires
            old(host).inv(),
            path_index < 8,
            5 + data@.len() <= usize::MAX,
            tree_ok(
                old(host).world(),
                old(self).root@,
                path_index as nat,
                path_of(key@, path_index as nat),
            ),
        ensures
            final(host).inv(),
            set_done(
                old(host).world(),
                old(self).root@,
                key@,
                data@,
                path_index as nat,
                final(host).world(),
                final(self).root@,
            ),
        decreases 8 - path_index,
    {
        let ghost level = path_index as nat;
        let ghost path = path_of(key@, level);
        let ghost before = old(host).world();
        let ghost root = self.root@;
        let word = key[path_index / 2];
        let local_index = #[verifier::truncate] ((word >> (32 * (path_index % 2))) as u32);
        proof {
            lemma_segment_in_range(key@, level);
            assert(word >> 0 == word) by (bit_vector);
            assert((word as u32) as int == (word & 0xffff_ffff) as int) by (bit_vector);
            assert(((word >> 32) as u32) as int == (word >> 32) as int) by (bit_vector);
            host.inv_is_sound();
        }
        let ghost slot = local_index as int;
        assert(slot == segment(key@, level));
        assert(slot_fits(before, before.leaf(root, slot), slot, level, path));
        let mut node_buf: Vec<u64> = Vec::new();
        let mut hint_hash = [0u64; 4];
        // the node may be the root of a sub-tree: it is hashed with padding
        let len = self.get(host, local_index, &mut node_buf, &mut hint_hash, true);
        let ghost read = host.world();
        let ghost held = node_buf@;
        proof {
            assert(key@.subrange(0, 4) =~= key@);
        }
        if len == 0 || (node_buf[0] & 0x1) == LEAF_NODE && data_matches_key(
            node_buf.as_slice(),
            key,
        ) {
            // the slot is free, or holds this key
            let data_len = data.len();
            let mut record: Vec<u64> = vec![0u64; 5 + data_len];
            set_smt_data(&mut record, LEAF_NODE, key, data);
            let node = slice_subrange(record.as_slice(), 0, 5 + data_len);
            self.set_unsafe(host, local_index, node, true);
            proof {
                host.inv_is_sound();
                assert(node@ =~= node_words(LEAF_NODE, key@, data@));
                lemma_leaf_done(
                    before,
                    root,
                    key@,
                    data@,
                    level,
                    host.world().digests[(node@, true)],
                    self.root@,
                    host.world(),
                );
            }
        } else if (node_buf[0] & 0x1) == LEAF_NODE {
            // two keys in one slot: both move to a sub-tree, one level down
            let held_key = [node_buf[1], node_buf[2], node_buf[3], node_buf[4]];
            let held_len = node_buf.len();
            let held_value = slice_subrange(node_buf.as_slice(), 5, held_len);
            proof {
                assert(held_key@ =~= held.subrange(1, 5));
                assert(held_value@ =~= held.skip(5));
                assert(path.push(slot) =~= path_of(key@, level + 1));
                lemma_shared_path(held_key@, key@, level);
                if level == 7 {
                    lemma_segments_make_key(held_key@, key@);
                }
                lemma_empty(read, level + 1, path_of(key@, level + 1));
            }
            let mut sub_merkle = Merkle::new();
            sub_merkle.smt_set_local(host, &held_key, path_index + 1, held_value);
            let ghost first = host.world();
            let ghost first_root = sub_merkle.root@;
            sub_merkle.smt_set_local(host, key, path_index + 1, data);
            let ghost second = host.world();
            let ghost sub_root = sub_merkle.root@;
            proof {
                host.inv_is_sound();
            }
            let mut tree_buf: Vec<u64> = vec![0u64; 5];
            set_smt_data(&mut tree_buf, TREE_NODE, &sub_merkle.root, &[]);
            let node = slice_subrange(tree_buf.as_slice(), 0, 5);
            proof {
                lemma_grows_same(before, read);
                lemma_grows_on(read, first, second);
                lemma_grows_on(before, read, second);
                assert(second.leaf(root, slot) == before.leaf(root, slot));
            }
            self.set(host, local_index, node, true, None);
            proof {
                host.inv_is_sound();
                assert(node@ =~= node_words(TREE_NODE, sub_root, Seq::empty()));
                lemma_split_done(
                    before,
                    root,
                    key@,
                    data@,
                    level,
                    first,
                    first_root,
                    second,
                    sub_root,
                    host.world().digests[(node@, true)],
                    self.root@,
                    host.world(),
                );
            }
        } else {
            // the slot holds a sub-tree
            let mut sub_merkle = Merkle::load([node_buf[1], node_buf[2], node_buf[3], node_buf[4]]);
            let ghost sub_before = sub_merkle.root@;
            proof {
                assert(sub_before =~= held.subrange(1, 5));
                assert(path.push(slot) =~= path_of(key@, level + 1));
                lemma_grows_same(before, read);
                lemma_grown(before, read, sub_before, level + 1, path_of(key@, level + 1));
            }
            sub_merkle.smt_set_local(host, key, path_index + 1, data);
            let ghost second = host.world();
            let ghost sub_root = sub_merkle.root@;
            proof {
                host.inv_is_sound();
            }
            let mut tree_buf: Vec<u64> = vec![0u64; 5];
            set_smt_data(&mut tree_buf, TREE_NODE, &sub_merkle.root, &[]);
            let node = slice_subrange(tree_buf.as_slice(), 0, 5);
            proof {
                lemma_grows_on(before, read, second);
                assert(second.leaf(root, slot) == before.leaf(root, slot));
            }
            self.set(host, local_index, node, true, None);
            proof {
                host.inv_is_sound();
                assert(node@ =~= node_words(TREE_NODE, sub_root, Seq::empty()));
                lemma_branch_done(
                    before,
                    root,
                    key@,
                    data@,
                    level,
                    second,
                    sub_root,
                    host.world().digests[(node@, true)],
                    self.root@,
                    host.world(),
                );
            }
        }
    }

    /// Looks `key` up in the tree. `data` receives the value and the result
    /// is its length; both are empty and 0 where the tree holds no such key.
    pub fn smt_get<H: Host>(&mut self, host: &mut H, key: &[u64; 4], data: &mut Vec<u64>) -> (len:
        u64)
        requires
            old(host).inv(),
            is_tree(old(host).world(), old(self).root@),
        ensures
            final(host).inv(),
            *final(self) == *old(self),
            final(host).world().same_store(old(host).world()),
            final(host).world().trace == old(host).world().trace + trail(
                old(host).world(),
                old(self).root@,
                key@,
                0,
            ),
            is_tree(final(host).world(), old(self).root@),
            tree_map(final(host).world(), old(self).root@) == tree_map(
                old(host).world(),
                old(self).root@,
            ),
            len == final(data)@.len(),
            final(data)@ == if tree_map(old(host).world(), old(self).root@).contains_key(key@) {
                tree_map(old(host).world(), old(self).root@)[key@]
            } else {
                Seq::empty()
            },
    {
        assert(path_of(key@, 0) =~= Seq::empty());
        let len = self.smt_get_local(host, key, 0, data);
        proof {
            lemma_grows_same(old(host).world(), host.world());
            lemma_grown(old(host).world(), host.world(), self.root@, 0, Seq::empty());
            assert(tree_map(host.world(), self.root@) =~= tree_map(old(host).world(), self.root@));
        }
        len
    }

    /// Puts `data` under `key` in the tree, in place of what was there.
    pub fn smt_set<H: Host>(&mut self, host: &mut H, key: &[u64; 4], data: &[u64])
        requires
            old(host).inv(),
            5 + data@.len() <= usize::MAX,
            is_tree(old(host).world(), old(self).root@),
        ensures
            final(host).inv(),
            set_gives(
                old(host).world(),
                old(self).root@,
                key@,
                data@,
                final(host).world(),
                final(self).root@,
            ),
    {
        assert(path_of(key@, 0) =~= Seq::empty());
        self.smt_set_local(host, key, 0, data);
        assert(tree_map(host.world(), self.root@) =~= tree_map(
            old(host).world(),
            old(self).root@,
        ).insert(key@, data@));
    }
}

/// The tree in which no slot was written is a tree, and holds no key.
pub proof fn law_empty_misses(world: World)
    requires
        world.sound(),
    ensures
        is_tree(world, empty_root()),
        tree_map(world, empty_root()) == Map::<Seq<u64>, Seq<u64>>::empty(),
{
    lemma_empty(world, 0, Seq::empty());
    assert(tree_map(world, empty_root()) =~= Map::<Seq<u64>, Seq<u64>>::empty());
}

/// After `data` was put under `key`, the tree holds `data` under `key`, and
/// under every other key what it held before.
pub proof fn law_round_trip(
    world: World,
    root: Seq<u64>,
    key: Seq<u64>,
    data: Seq<u64>,
    after: World,
    next: Seq<u64>,
)
    requires
        set_gives(world, root, key, data, after, next),
    ensures
        find(after, next, key, 0) == Some(data),
        forall|other: Seq<u64>|
            other != key ==> find(after, next, other, 0) == find(world, root, other, 0),
{
    let was = tree_map(world, root);
    let is = tree_map(after, next);
    assert(is.contains_key(key) && is[key] == data);
    assert forall|other: Seq<u64>| other != key implies find(after, next, other, 0) == find(
        world,
        root,
        other,
        0,
    ) by {
        assert(is.contains_key(other) == was.contains_key(other));
        if was.contains_key(other) {
            assert(is[other] == was[other]);
        }
    }
}

/// After two values were put under one key, the tree holds the second; and
/// where the values differ, so do the roots after the first and the second.
pub proof fn law_overwrite(
    world: World,
    root: Seq<u64>,
    key: Seq<u64>,
    first: Seq<u64>,
    second: Seq<u64>,
    mid: World,
    mid_root: Seq<u64>,
    after: World,
    next: Seq<u64>,
)
    requires
        set_gives(world, root, key, first, mid, mid_root),
        set_gives(mid, mid_root, key, second, after, next),
    ensures
        find(after, next, key, 0) == Some(second),
        first != second ==> mid_root != next,
{
    law_round_trip(world, root, key, first, mid, mid_root);
    law_round_trip(mid, mid_root, key, second, after, next);
    if mid_root == next {
        lemma_grown(mid, after, mid_root, 0, Seq::empty());
    }
}

/// Two keys that lead to one slot and were put in the tree one after the
/// other are both held, each with its own value.
pub proof fn law_collision(
    world: World,
    root: Seq<u64>,
    one: Seq<u64>,
    one_data: Seq<u64>,
    other: Seq<u64>,
    other_data: Seq<u64>,
    level: nat,
    mid: World,
    mid_root: Seq<u64>,
    after: World,
    next: Seq<u64>,
)
    requires
        one != other,
        level < 8,
        segment(one, level) == segment(other, level),
        set_gives(world, root, one, one_data, mid, mid_root),
        set_gives(mid, mid_root, other, other_data, after, next),
    ensures
        find(after, next, one, 0) == Some(one_data),
        find(after, next, other, 0) == Some(other_data),
{
    law_round_trip(world, root, one, one_data, mid, mid_root);
    law_round_trip(mid, mid_root, other, other_data, after, next);
}

/// The level at which the search for `key` ends in the tree under `root`,
/// which stands at `level`; 8 where it would go on below the last level.
pub open spec fn ends_at(world: World, root: Seq<u64>, key: Seq<u64>, level: nat) -> nat
    decreases 8 - level,
{
    if level >= 8 {
        8
    } else {
        let payload = world.cached(world.leaf(root, segment(key, level)));
        if world.leaf(root, segment(key, level)) == zero_words() || payload.len() < 5 {
            level
        } else {
            match node_of(payload) {
                Node::Leaf { key: held, value } => level,
                Node::Tree { root: sub } => ends_at(world, sub, key, level + 1),
            }
        }
    }
}

/// In a tree that the library built, the search for any key ends at one of
/// the eight levels.
pub proof fn law_depth_bound(world: World, root: Seq<u64>, key: Seq<u64>, level: nat, path: Seq<int>)
    requires
        tree_ok(world, root, level, path),
    ensures
        level <= ends_at(world, root, key, level) < 8,
    decreases 8 - level,
{
    let slot = segment(key, level);
    lemma_segment_in_range(key, level);
    let hash = world.leaf(root, slot);
    assert(slot_fits(world, hash, slot, level, path));
    if hash != zero_words() {
        if let Node::Tree { root: sub } = node_of(world.cached(hash)) {
            law_depth_bound(world, sub, key, level + 1, path.push(slot));
        }
    }
}

} // verus!
