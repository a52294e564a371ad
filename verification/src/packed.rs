//! The two-level tree keyed by one word, with one word per value. A slot
//! holds `[key, value, 0, flags]`, or the root of a sub-tree with the node
//! flag set in its last word.

use crate::host::{
    empty_root, lemma_grows_on, lemma_grows_same, lemma_rewritten, read_calls, slot_count,
    write_calls, zero_words, Call, Host, World,
};
use crate::merkle::Merkle;
use vstd::prelude::*;

verus! {

/// Set in the last word of a slot that holds the root of a sub-tree.
pub const IS_NODE_BIT: u64 = 0x4000_0000_0000_0000;

/// Set in the last word of a slot that holds a key and its value. A slot
/// without it, and without the node flag, was never written.
pub const IS_EMPTY_BIT: u64 = 0x2000_0000_0000_0000;

/// The flags say that the slot holds no sub-tree.
pub fn is_leaf(a: u64) -> (b: bool)
    ensures
        b == (a & IS_NODE_BIT == 0),
{
    (a & IS_NODE_BIT) == 0
}

/// The flags say that the slot was never written.
pub fn is_empty(a: u64) -> (b: bool)
    ensures
        b == (a & IS_EMPTY_BIT == 0),
{
    (a & IS_EMPTY_BIT) == 0
}

/// What the four words of a slot stand for.
pub enum Slot {
    /// Never written.
    Vacant,
    /// A key with its value.
    Entry { key: u64, value: u64 },
    /// The root of a sub-tree.
    Branch { root: Seq<u64> },
}

/// The slot that the words `leaf` stand for.
pub open spec fn slot_of(leaf: Seq<u64>) -> Slot {
    if leaf[3] & IS_NODE_BIT != 0 {
        Slot::Branch { root: leaf.update(3, leaf[3] & !IS_NODE_BIT) }
    } else if leaf[3] & IS_EMPTY_BIT == 0 {
        Slot::Vacant
    } else {
        Slot::Entry { key: leaf[0], value: leaf[1] }
    }
}

/// The slot that `key` leads to at `level`: its low half at level 0, its high
/// half at level 1.
pub open spec fn half(key: u64, level: nat) -> int {
    if level == 0 {
        (key & 0xffff_ffff) as int
    } else {
        (key >> 32) as int
    }
}

/// The value under `key` in the tree under `root`, which stands at `level`.
pub open spec fn find_u64(world: World, root: Seq<u64>, key: u64, level: nat) -> Option<u64>
    decreases 2 - level,
{
    if level >= 2 {
        None
    } else {
        match slot_of(world.leaf(root, half(key, level))) {
            Slot::Vacant => None,
            Slot::Entry { key: held, value } => if held == key {
                Some(value)
            } else {
                None
            },
            Slot::Branch { root: sub } => find_u64(world, sub, key, level + 1),
        }
    }
}

/// The calls of the accumulator that the search for `key` makes: one read of
/// a leaf at each level it comes to.
pub open spec fn trail_u64(world: World, root: Seq<u64>, key: u64, level: nat) -> Seq<Call>
    decreases 2 - level,
{
    let slot = half(key, level);
    if level >= 2 {
        Seq::empty()
    } else {
        match slot_of(world.leaf(root, slot)) {
            Slot::Branch { root: sub } => read_calls(slot, root, world.leaf(root, slot))
                + trail_u64(world, sub, key, level + 1),
            _ => read_calls(slot, root, world.leaf(root, slot)),
        }
    }
}

/// The tree under `sub` holds two keys or more.
pub open spec fn holds_two_u64(world: World, sub: Seq<u64>) -> bool {
    exists|a: int, b: int|
        a != b && slot_of(#[trigger] world.leaf(sub, a)) is Entry && slot_of(
            #[trigger] world.leaf(sub, b),
        ) is Entry
}

/// The tree under `root` is one that the library built: the accumulator
/// knows it, each key stands in the slot that its halves lead to, and only a
/// tree at level 0 has sub-trees, each with two keys or more: a slot holds a
/// sub-tree only after two keys that lead to it were put in the tree. `above`
/// is the slot of the parent that holds a tree at level 1.
pub open spec fn tree_ok_u64(world: World, root: Seq<u64>, level: nat, above: int) -> bool
    decreases 2 - level,
{
    &&& level < 2
    &&& world.knows(root)
    &&& forall|i: int|
        0 <= i < slot_count() ==> match slot_of(#[trigger] world.leaf(root, i)) {
            Slot::Vacant => true,
            Slot::Entry { key, value } => half(key, level) == i && (level == 1 ==> half(key, 0)
                == above),
            Slot::Branch { root: sub } => level == 0 && tree_ok_u64(world, sub, 1, i)
                && holds_two_u64(world, sub),
        }
}

/// The tree as a map from keys to values.
pub open spec fn map_u64(world: World, root: Seq<u64>) -> Map<u64, u64> {
    Map::new(
        |key: u64| find_u64(world, root, key, 0) is Some,
        |key: u64| find_u64(world, root, key, 0)->Some_0,
    )
}

/// The tree under `root` is a whole tree that the library built.
pub open spec fn is_tree_u64(world: World, root: Seq<u64>) -> bool {
    tree_ok_u64(world, root, 0, 0)
}

/// The words of a slot that holds `key` with `value`.
pub open spec fn entry_words(key: u64, value: u64) -> Seq<u64> {
    seq![key, value, 0u64, IS_EMPTY_BIT]
}

/// The tree under `sub` holds the two keys, each in the slot of its high
/// half, and nothing else.
pub open spec fn pair_tree_u64(
    after: World,
    sub: Seq<u64>,
    one: u64,
    one_value: u64,
    other: u64,
    other_value: u64,
) -> bool {
    &&& after.knows(sub)
    &&& forall|i: int| #[trigger]
        after.leaf(sub, i) == if i == half(other, 1) {
            entry_words(other, other_value)
        } else if i == half(one, 1) {
            entry_words(one, one_value)
        } else {
            zero_words()
        }
}

/// What putting `data` under `key` makes of the tree under `root`, which
/// stands at `level`: the tree under `next` of `after`. Every slot but the
/// one that `key` leads to holds what it held. That slot, where it was never
/// written, holds key, value, a zero word and the flag of a written slot;
/// where it held `key`, the new value in place of the old; where it held
/// another key, the root of a sub-tree with these two keys and nothing else;
/// where it held a sub-tree, the root of what the same makes of that tree.
pub open spec fn tree_after_u64(
    world: World,
    root: Seq<u64>,
    key: u64,
    data: u64,
    level: nat,
    after: World,
    next: Seq<u64>,
) -> bool
    decreases 2 - level,
{
    let was = world.leaf(root, half(key, level));
    let now = after.leaf(next, half(key, level));
    &&& level < 2
    &&& forall|i: int|
        i != half(key, level) ==> #[trigger] after.leaf(next, i) == world.leaf(root, i)
    &&& match slot_of(was) {
        Slot::Vacant => now == entry_words(key, data),
        Slot::Entry { key: held, value } => if held == key {
            now == was.update(0, key).update(1, data)
        } else {
            slot_of(now) matches Slot::Branch { root: sub } && pair_tree_u64(
                after,
                sub,
                held,
                value,
                key,
                data,
            )
        },
        Slot::Branch { root: was_sub } => slot_of(now) matches Slot::Branch { root: sub }
            && tree_after_u64(world, was_sub, key, data, level + 1, after, sub),
    }
}

/// The calls of the accumulator that put the words `now` in a slot that
/// held `was`: the read of the slot, then the read and the write of a safe
/// write, which gave the root `next`.
pub open spec fn step_calls(
    slot: int,
    root: Seq<u64>,
    was: Seq<u64>,
    now: Seq<u64>,
    next: Seq<u64>,
) -> Seq<Call> {
    read_calls(slot, root, was) + read_calls(slot, root, was) + write_calls(slot, root, now, next)
}

/// The calls of the accumulator that putting `data` under `key` makes. A
/// slot that was never written, or held `key`, is read and then written
/// as [`step_calls`] says. A slot that held another key is read; then that
/// key is put in the empty tree, which gives the root `mid`, and `key` in the
/// tree under `mid`; then the slot is read again and written. A slot that
/// held a sub-tree is read; then `key` is put in the sub-tree; then the slot
/// is read again and written.
pub open spec fn set_trail_u64(
    world: World,
    root: Seq<u64>,
    key: u64,
    data: u64,
    level: nat,
    after: World,
    next: Seq<u64>,
    mid: Seq<u64>,
) -> Seq<Call> {
    let slot = half(key, level);
    let was = world.leaf(root, slot);
    let now = after.leaf(next, slot);
    let sub = now.update(3, now[3] & !IS_NODE_BIT);
    match slot_of(was) {
        Slot::Vacant => step_calls(slot, root, was, now, next),
        Slot::Entry { key: held, value } => if held == key {
            step_calls(slot, root, was, now, next)
        } else {
            read_calls(slot, root, was) + step_calls(
                half(held, 1),
                empty_root(),
                zero_words(),
                entry_words(held, value),
                mid,
            ) + step_calls(half(key, 1), mid, zero_words(), entry_words(key, data), sub)
                + read_calls(slot, root, was) + write_calls(slot, root, now, next)
        },
        Slot::Branch { root: was_sub } => read_calls(slot, root, was) + step_calls(
            half(key, 1),
            was_sub,
            world.leaf(was_sub, half(key, 1)),
            after.leaf(sub, half(key, 1)),
            sub,
        ) + read_calls(slot, root, was) + write_calls(slot, root, now, next),
    }
}

/// Putting `data` under `key` in the tree under `root` of `world` may give
/// the tree under `next` of `after`: a tree that holds `data` under `key`
/// and is otherwise the same map, with all else that [`set_done_u64`] says.
pub open spec fn set_gives_u64(
    world: World,
    root: Seq<u64>,
    key: u64,
    data: u64,
    after: World,
    next: Seq<u64>,
) -> bool {
    &&& is_tree_u64(after, next)
    &&& map_u64(after, next) == map_u64(world, root).insert(key, data)
    &&& set_done_u64(world, root, key, data, 0, after, next)
}

/// The words of the slot at which the search for `key` ends.
pub open spec fn resting_u64(world: World, root: Seq<u64>, key: u64, level: nat) -> Seq<u64>
    decreases 2 - level,
{
    let leaf = world.leaf(root, half(key, level));
    if level >= 2 {
        leaf
    } else {
        match slot_of(leaf) {
            Slot::Branch { root: sub } => resting_u64(world, sub, key, level + 1),
            _ => leaf,
        }
    }
}

/// A tree at level 0 has no parent: the slot of one does not matter.
proof fn lemma_top_u64(world: World, root: Seq<u64>, one: int, other: int)
    requires
        tree_ok_u64(world, root, 0, one),
    ensures
        tree_ok_u64(world, root, 0, other),
{
}

proof fn lemma_half_in_range(key: u64, level: nat)
    ensures
        0 <= half(key, level) < slot_count(),
{
    assert(key & 0xffff_ffff < 0x1_0000_0000) by (bit_vector);
    assert(key >> 32 < 0x1_0000_0000) by (bit_vector);
}

/// A known tree with two keys has them in every world that the first has
/// grown to.
proof fn lemma_two_moves_u64(world: World, next: World, sub: Seq<u64>)
    requires
        world.grows_to(next),
        world.knows(sub),
        holds_two_u64(world, sub),
    ensures
        holds_two_u64(next, sub),
{
    let (a, b) = choose|a: int, b: int|
        a != b && slot_of(#[trigger] world.leaf(sub, a)) is Entry && slot_of(
            #[trigger] world.leaf(sub, b),
        ) is Entry;
    assert(next.leaf(sub, a) == world.leaf(sub, a));
    assert(next.leaf(sub, b) == world.leaf(sub, b));
}

/// A tree that the library built is the same tree, with the same values,
/// in every world that the first has grown to.
pub proof fn lemma_grown_u64(world: World, next: World, root: Seq<u64>, level: nat, above: int)
    requires
        world.grows_to(next),
        tree_ok_u64(world, root, level, above),
    ensures
        tree_ok_u64(next, root, level, above),
        forall|key: u64| find_u64(next, root, key, level) == find_u64(world, root, key, level),
        forall|key: u64| trail_u64(next, root, key, level) == trail_u64(world, root, key, level),
    decreases 2 - level,
{
    assert forall|key: u64| trail_u64(next, root, key, level) == trail_u64(
        world,
        root,
        key,
        level,
    ) by {
        let i = half(key, level);
        lemma_half_in_range(key, level);
        assert(next.leaf(root, i) == world.leaf(root, i));
        if let Slot::Branch { root: sub } = slot_of(world.leaf(root, i)) {
            lemma_grown_u64(world, next, sub, 1, i);
            assert(trail_u64(next, sub, key, 1) == trail_u64(world, sub, key, 1));
        }
    }
    assert forall|i: int| 0 <= i < slot_count() implies match slot_of(
        #[trigger] next.leaf(root, i),
    ) {
        Slot::Vacant => true,
        Slot::Entry { key, value } => half(key, level) == i && (level == 1 ==> half(key, 0)
            == above),
        Slot::Branch { root: sub } => level == 0 && tree_ok_u64(next, sub, 1, i)
            && holds_two_u64(next, sub),
    } by {
        assert(next.leaf(root, i) == world.leaf(root, i));
        if let Slot::Branch { root: sub } = slot_of(world.leaf(root, i)) {
            lemma_grown_u64(world, next, sub, 1, i);
            lemma_two_moves_u64(world, next, sub);
        }
    }
    assert forall|key: u64| find_u64(next, root, key, level) == find_u64(
        world,
        root,
        key,
        level,
    ) by {
        let i = half(key, level);
        lemma_half_in_range(key, level);
        assert(next.leaf(root, i) == world.leaf(root, i));
        match slot_of(world.leaf(root, i)) {
            Slot::Branch { root: sub } => {
                assert(level == 0);
                lemma_grown_u64(world, next, sub, 1, i);
                assert(find_u64(next, sub, key, 1) == find_u64(world, sub, key, 1));
                assert(find_u64(next, root, key, level) == find_u64(next, sub, key, 1));
                assert(find_u64(world, root, key, level) == find_u64(world, sub, key, 1));
            },
            Slot::Vacant => {
                assert(find_u64(next, root, key, level) == None::<u64>);
            },
            Slot::Entry { key: held, value } => {
                assert(find_u64(next, root, key, level) == find_u64(world, root, key, level));
            },
        }
    }
}

/// The slot content `leaf` may stand in slot `slot` of a tree at `level`.
pub open spec fn slot_fits_u64(
    world: World,
    leaf: Seq<u64>,
    slot: int,
    level: nat,
    above: int,
) -> bool {
    match slot_of(leaf) {
        Slot::Vacant => true,
        Slot::Entry { key, value } => half(key, level) == slot && (level == 1 ==> half(key, 0)
            == above),
        Slot::Branch { root: sub } => level == 0 && tree_ok_u64(world, sub, 1, slot)
            && holds_two_u64(world, sub),
    }
}

/// A tree with one slot replaced by fitting content is a tree that the
/// library built, and holds the same value under every key that leads to
/// another slot.
proof fn lemma_slot_replaced_u64(
    world: World,
    root: Seq<u64>,
    level: nat,
    above: int,
    next: World,
    next_root: Seq<u64>,
    slot: int,
    leaf: Seq<u64>,
)
    requires
        tree_ok_u64(world, root, level, above),
        world.grows_to(next),
        next.knows(next_root),
        forall|i: int| #[trigger]
            next.leaf(next_root, i) == if i == slot {
                leaf
            } else {
                world.leaf(root, i)
            },
        slot_fits_u64(next, leaf, slot, level, above),
    ensures
        tree_ok_u64(next, next_root, level, above),
        forall|key: u64|
            half(key, level) != slot ==> find_u64(next, next_root, key, level) == find_u64(
                world,
                root,
                key,
                level,
            ),
{
    assert forall|i: int| 0 <= i < slot_count() implies slot_fits_u64(
        next,
        #[trigger] next.leaf(next_root, i),
        i,
        level,
        above,
    ) by {
        if i != slot {
            assert(next.leaf(next_root, i) == world.leaf(root, i));
            if let Slot::Branch { root: sub } = slot_of(world.leaf(root, i)) {
                assert(tree_ok_u64(world, sub, 1, i));
                lemma_grown_u64(world, next, sub, 1, i);
                lemma_two_moves_u64(world, next, sub);
            }
        }
    }
    assert forall|key: u64| half(key, level) != slot implies find_u64(
        next,
        next_root,
        key,
        level,
    ) == find_u64(world, root, key, level) by {
        let i = half(key, level);
        lemma_half_in_range(key, level);
        assert(next.leaf(next_root, i) == world.leaf(root, i));
        match slot_of(world.leaf(root, i)) {
            Slot::Branch { root: sub } => {
                lemma_grown_u64(world, next, sub, 1, i);
                assert(find_u64(next, sub, key, 1) == find_u64(world, sub, key, 1));
            },
            Slot::Vacant => {},
            Slot::Entry { key: held, value } => {},
        }
    }
}

/// The tree in which no slot was written is a tree that the library built,
/// and holds nothing.
proof fn lemma_empty_u64(world: World, level: nat, above: int)
    requires
        world.sound(),
        level < 2,
    ensures
        tree_ok_u64(world, empty_root(), level, above),
        forall|key: u64| find_u64(world, empty_root(), key, level) is None,
{
    assert(0u64 & IS_NODE_BIT == 0 && 0u64 & IS_EMPTY_BIT == 0) by (bit_vector);
    assert forall|i: int| world.leaf(empty_root(), i) == zero_words() by {}
}

/// Two keys with the same halves are one key.
proof fn lemma_halves_make_key(a: u64, b: u64)
    requires
        half(a, 0) == half(b, 0),
        half(a, 1) == half(b, 1),
    ensures
        a == b,
{
    assert((a & 0xffff_ffff) == (b & 0xffff_ffff) && (a >> 32) == (b >> 32) ==> a == b)
        by (bit_vector);
}

/// What a write made of a tree stays so where the world before is seen with
/// another exchange in progress, and in every world that the world after has
/// grown to.
proof fn lemma_after_moves_u64(
    world: World,
    other: World,
    root: Seq<u64>,
    key: u64,
    data: u64,
    level: nat,
    mid: World,
    after: World,
    next: Seq<u64>,
    above: int,
)
    requires
        other.same_store(world),
        tree_ok_u64(mid, next, level, above),
        mid.grows_to(after),
        tree_after_u64(world, root, key, data, level, mid, next),
    ensures
        tree_after_u64(other, root, key, data, level, after, next),
    decreases 2 - level,
{
    let slot = half(key, level);
    lemma_half_in_range(key, level);
    assert forall|i: int| i != slot implies #[trigger] after.leaf(next, i) == other.leaf(
        root,
        i,
    ) by {
        assert(mid.leaf(next, i) == world.leaf(root, i));
    }
    assert(after.leaf(next, slot) == mid.leaf(next, slot));
    assert(other.leaf(root, slot) == world.leaf(root, slot));
    let now = mid.leaf(next, slot);
    match slot_of(world.leaf(root, slot)) {
        Slot::Vacant => {},
        Slot::Entry { key: held, value } => {
            if held != key {
                let sub = slot_of(now)->Branch_root;
                assert forall|i: int| #[trigger] after.leaf(sub, i) == mid.leaf(sub, i) by {}
            }
        },
        Slot::Branch { root: was_sub } => {
            let sub = slot_of(now)->Branch_root;
            assert(tree_ok_u64(mid, sub, 1, slot));
            lemma_after_moves_u64(world, other, was_sub, key, data, level + 1, mid, after, sub, slot);
        },
    }
}

/// All that putting `data` under `key` in the tree under `root` of `world`,
/// which stands at `level`, leaves behind: the tree under `next` of `after`
/// is one that the library built, holds `data` under `key` and under every
/// other key what the old tree held, has the leaves that [`tree_after_u64`]
/// says, and came about through the calls that [`set_trail_u64`] says, in a
/// world that `world` has grown to without another digest or cached payload.
pub open spec fn set_done_u64(
    world: World,
    root: Seq<u64>,
    key: u64,
    data: u64,
    level: nat,
    after: World,
    next: Seq<u64>,
) -> bool {
    &&& world.grows_to(after)
    &&& after.digests == world.digests
    &&& after.cache == world.cache
    &&& tree_ok_u64(after, next, level, half(key, 0))
    &&& forall|k: u64|
        find_u64(after, next, k, level) == if k == key {
            Some(data)
        } else {
            find_u64(world, root, k, level)
        }
    &&& tree_after_u64(world, root, key, data, level, after, next)
    &&& exists|mid: Seq<u64>|
        after.trace == world.trace + set_trail_u64(world, root, key, data, level, after, next, mid)
}

/// The write of key and value to a slot that was never written, or held the
/// key, does all that [`set_done_u64`] says.
proof fn lemma_leaf_done_u64(
    before: World,
    root: Seq<u64>,
    key: u64,
    data: u64,
    level: nat,
    words: Seq<u64>,
    next: Seq<u64>,
    after: World,
)
    requires
        level < 2,
        before.sound(),
        tree_ok_u64(before, root, level, half(key, 0)),
        match slot_of(before.leaf(root, half(key, level))) {
            Slot::Vacant => words == entry_words(key, data),
            Slot::Entry { key: held, value } => held == key && words == before.leaf(
                root,
                half(key, level),
            ).update(0, key).update(1, data),
            Slot::Branch { root: sub } => false,
        },
        before.may_follow(root, half(key, level), words, next),
        after == before.read_through(half(key, level), root).read_through(
            half(key, level),
            root,
        ).rewritten(root, half(key, level), words, next),
    ensures
        set_done_u64(before, root, key, data, level, after, next),
{
    let slot = half(key, level);
    let was = before.leaf(root, slot);
    let read = before.read_through(slot, root);
    lemma_half_in_range(key, level);
    assert(IS_EMPTY_BIT & IS_NODE_BIT == 0 && IS_EMPTY_BIT & IS_EMPTY_BIT != 0) by (bit_vector);
    assert(slot_of(words) == Slot::Entry { key, value: data });
    lemma_grows_same(before, read);
    lemma_grown_u64(before, read, root, level, half(key, 0));
    lemma_rewritten(read, read.read_through(slot, root), root, slot, words, next);
    lemma_slot_replaced_u64(read, root, level, half(key, 0), after, next, slot, words);
    lemma_grows_on(before, read, after);
    assert(read.leaf(root, slot) == was);
    assert(after.trace =~= before.trace + set_trail_u64(
        before,
        root,
        key,
        data,
        level,
        after,
        next,
        root,
    ));
}

/// The move of two keys from one slot to a sub-tree does all that
/// [`set_done_u64`] says.
proof fn lemma_split_done_u64(
    before: World,
    root: Seq<u64>,
    key: u64,
    data: u64,
    first: World,
    first_root: Seq<u64>,
    second: World,
    sub_root: Seq<u64>,
    next: Seq<u64>,
    after: World,
)
    requires
        before.sound(),
        second.sound(),
        tree_ok_u64(before, root, 0, half(key, 0)),
        slot_of(before.leaf(root, half(key, 0))) is Entry,
        slot_of(before.leaf(root, half(key, 0)))->Entry_key != key,
        set_done_u64(
            before.read_through(half(key, 0), root),
            empty_root(),
            slot_of(before.leaf(root, half(key, 0)))->Entry_key,
            slot_of(before.leaf(root, half(key, 0)))->Entry_value,
            1,
            first,
            first_root,
        ),
        set_done_u64(first, first_root, key, data, 1, second, sub_root),
        second.may_follow(
            root,
            half(key, 0),
            sub_root.update(3, sub_root[3] | IS_NODE_BIT),
            next,
        ),
        after == second.read_through(half(key, 0), root).rewritten(
            root,
            half(key, 0),
            sub_root.update(3, sub_root[3] | IS_NODE_BIT),
            next,
        ),
    ensures
        set_done_u64(before, root, key, data, 0, after, next),
{
    let slot = half(key, 0);
    let was = before.leaf(root, slot);
    let old_key = slot_of(was)->Entry_key;
    let old_value = slot_of(was)->Entry_value;
    let read = before.read_through(slot, root);
    let tagged = sub_root.update(3, sub_root[3] | IS_NODE_BIT);
    lemma_half_in_range(key, 0);
    lemma_half_in_range(key, 1);
    lemma_half_in_range(old_key, 1);
    assert(half(old_key, 0) == slot);
    assert(half(old_key, 1) != half(key, 1)) by {
        if half(old_key, 1) == half(key, 1) {
            lemma_halves_make_key(key, old_key);
        }
    }
    let top = sub_root[3];
    assert(top < 0x4000_0000_0000_0000 ==> (top | IS_NODE_BIT) & IS_NODE_BIT != 0 && (top
        | IS_NODE_BIT) & !IS_NODE_BIT == top) by (bit_vector);
    assert(0u64 & IS_NODE_BIT == 0 && 0u64 & IS_EMPTY_BIT == 0) by (bit_vector);
    assert(IS_EMPTY_BIT & IS_NODE_BIT == 0 && IS_EMPTY_BIT & IS_EMPTY_BIT != 0) by (bit_vector);
    assert(tree_ok_u64(second, sub_root, 1, slot));
    assert(tagged.update(3, tagged[3] & !IS_NODE_BIT) =~= sub_root);
    assert(slot_of(tagged) == Slot::Branch { root: sub_root });
    lemma_grows_same(before, read);
    lemma_grown_u64(before, read, root, 0, slot);
    lemma_grows_on(read, first, second);
    lemma_grown_u64(read, second, root, 0, slot);
    lemma_rewritten(second, second.read_through(slot, root), root, slot, tagged, next);
    lemma_grown_u64(second, after, sub_root, 1, slot);
    // the leaves of the sub-tree
    assert forall|i: int| read.leaf(empty_root(), i) == zero_words() by {}
    assert forall|i: int| #[trigger]
        after.leaf(sub_root, i) == if i == half(key, 1) {
            entry_words(key, data)
        } else if i == half(old_key, 1) {
            entry_words(old_key, old_value)
        } else {
            zero_words()
        } by {
        assert(after.leaf(sub_root, i) == second.leaf(sub_root, i));
        assert(read.leaf(empty_root(), i) == zero_words());
        if i != half(key, 1) {
            assert(second.leaf(sub_root, i) == first.leaf(first_root, i));
        }
    }
    assert(slot_of(after.leaf(sub_root, half(key, 1))) is Entry);
    assert(slot_of(after.leaf(sub_root, half(old_key, 1))) is Entry);
    lemma_slot_replaced_u64(second, root, 0, slot, after, next, slot, tagged);
    lemma_grows_on(read, second, after);
    lemma_grows_on(before, read, after);
    assert forall|k: u64| half(k, 0) == slot implies find_u64(after, next, k, 0) == if k == key {
        Some(data)
    } else {
        find_u64(before, root, k, 0)
    } by {
        assert(find_u64(after, next, k, 0) == find_u64(after, sub_root, k, 1));
        assert(find_u64(after, sub_root, k, 1) == find_u64(second, sub_root, k, 1));
        assert(find_u64(read, empty_root(), k, 1) is None);
    }
    assert(forall|i: int| i != slot ==> #[trigger] second.leaf(root, i) == before.leaf(root, i));
    // the calls
    let one = choose|mid: Seq<u64>|
        first.trace == read.trace + set_trail_u64(
            read,
            empty_root(),
            old_key,
            old_value,
            1,
            first,
            first_root,
            mid,
        );
    let two = choose|mid: Seq<u64>|
        second.trace == first.trace + set_trail_u64(
            first,
            first_root,
            key,
            data,
            1,
            second,
            sub_root,
            mid,
        );
    assert(first.leaf(first_root, half(old_key, 1)) == entry_words(old_key, old_value));
    assert(first.leaf(first_root, half(key, 1)) == zero_words());
    assert(second.leaf(sub_root, half(key, 1)) == entry_words(key, data));
    assert(read.leaf(root, slot) == was);
    assert(second.leaf(root, slot) == was);
    assert(after.leaf(next, slot) == tagged);
    assert(after.trace =~= before.trace + set_trail_u64(
        before,
        root,
        key,
        data,
        0,
        after,
        next,
        first_root,
    ));
}

/// The write of a key to a sub-tree, and of the new root of the sub-tree to
/// the slot, does all that [`set_done_u64`] says.
proof fn lemma_branch_done_u64(
    before: World,
    root: Seq<u64>,
    key: u64,
    data: u64,
    second: World,
    sub_root: Seq<u64>,
    next: Seq<u64>,
    after: World,
)
    requires
        before.sound(),
        second.sound(),
        tree_ok_u64(before, root, 0, half(key, 0)),
        slot_of(before.leaf(root, half(key, 0))) is Branch,
        set_done_u64(
            before.read_through(half(key, 0), root),
            slot_of(before.leaf(root, half(key, 0)))->Branch_root,
            key,
            data,
            1,
            second,
            sub_root,
        ),
        second.may_follow(
            root,
            half(key, 0),
            sub_root.update(3, sub_root[3] | IS_NODE_BIT),
            next,
        ),
        after == second.read_through(half(key, 0), root).rewritten(
            root,
            half(key, 0),
            sub_root.update(3, sub_root[3] | IS_NODE_BIT),
            next,
        ),
    ensures
        set_done_u64(before, root, key, data, 0, after, next),
{
    let slot = half(key, 0);
    let was = before.leaf(root, slot);
    let sub_before = slot_of(was)->Branch_root;
    let read = before.read_through(slot, root);
    let tagged = sub_root.update(3, sub_root[3] | IS_NODE_BIT);
    let changed = half(key, 1);
    lemma_half_in_range(key, 0);
    lemma_half_in_range(key, 1);
    let top = sub_root[3];
    assert(top < 0x4000_0000_0000_0000 ==> (top | IS_NODE_BIT) & IS_NODE_BIT != 0 && (top
        | IS_NODE_BIT) & !IS_NODE_BIT == top) by (bit_vector);
    assert(tree_ok_u64(second, sub_root, 1, slot));
    assert(tagged.update(3, tagged[3] & !IS_NODE_BIT) =~= sub_root);
    assert(slot_of(tagged) == Slot::Branch { root: sub_root });
    lemma_grows_same(before, read);
    lemma_grown_u64(before, read, root, 0, slot);
    assert(read.leaf(root, slot) == was);
    assert(tree_ok_u64(read, sub_before, 1, slot));
    lemma_grown_u64(read, second, root, 0, slot);
    lemma_rewritten(second, second.read_through(slot, root), root, slot, tagged, next);
    lemma_grown_u64(second, after, sub_root, 1, slot);
    assert(slot_of(second.leaf(sub_root, changed)) is Entry) by {
        assert(find_u64(second, sub_root, key, 1) == Some(data));
    }
    assert(holds_two_u64(second, sub_root)) by {
        let (a, b) = choose|a: int, b: int|
            a != b && slot_of(#[trigger] read.leaf(sub_before, a)) is Entry && slot_of(
                #[trigger] read.leaf(sub_before, b),
            ) is Entry;
        if a != changed {
            assert(second.leaf(sub_root, a) == read.leaf(sub_before, a));
        }
        if b != changed {
            assert(second.leaf(sub_root, b) == read.leaf(sub_before, b));
        }
    }
    lemma_two_moves_u64(second, after, sub_root);
    lemma_slot_replaced_u64(second, root, 0, slot, after, next, slot, tagged);
    lemma_grows_on(read, second, after);
    lemma_grows_on(before, read, after);
    assert forall|k: u64| half(k, 0) == slot implies find_u64(after, next, k, 0) == if k == key {
        Some(data)
    } else {
        find_u64(before, root, k, 0)
    } by {
        assert(find_u64(after, next, k, 0) == find_u64(after, sub_root, k, 1));
        assert(find_u64(after, sub_root, k, 1) == find_u64(second, sub_root, k, 1));
        assert(find_u64(before, root, k, 0) == find_u64(read, sub_before, k, 1));
    }
    lemma_after_moves_u64(read, before, sub_before, key, data, 1, second, after, sub_root, slot);
    assert(forall|i: int| i != slot ==> #[trigger] second.leaf(root, i) == before.leaf(root, i));
    // the calls
    let inner = choose|mid: Seq<u64>|
        second.trace == read.trace + set_trail_u64(
            read,
            sub_before,
            key,
            data,
            1,
            second,
            sub_root,
            mid,
        );
    assert(slot_of(read.leaf(sub_before, changed)) is Vacant || (slot_of(
        read.leaf(sub_before, changed),
    ) matches Slot::Entry { key: held, value } && held == key)) by {
        if let Slot::Entry { key: held, value } = slot_of(read.leaf(sub_before, changed)) {
            if held != key {
                lemma_halves_make_key(key, held);
            }
        }
    }
    assert(second.leaf(root, slot) == was);
    assert(after.leaf(next, slot) == tagged);
    assert(after.leaf(sub_root, changed) == second.leaf(sub_root, changed));
    assert(before.leaf(sub_before, changed) == read.leaf(sub_before, changed));
    assert(after.trace =~= before.trace + set_trail_u64(
        before,
        root,
        key,
        data,
        0,
        after,
        next,
        root,
    ));
}

impl Merkle {
    /// Looks `key` up in the tree at level `path_index`: the value, or 0
    /// where the tree holds no such key.
    pub fn smt_get_local_u64<H: Host>(&mut self, host: &mut H, key: u64, path_index: usize) -> (value:
        u64)
        requires
            old(host).inv(),
            path_index < 2,
            tree_ok_u64(old(host).world(), old(self).root@, path_index as nat, half(key, 0)),
        ensures
            final(host).inv(),
            *final(self) == *old(self),
            final(host).world().same_store(old(host).world()),
            final(host).world().trace == old(host).world().trace + trail_u64(
                old(host).world(),
                old(self).root@,
                key,
                path_index as nat,
            ),
            tree_ok_u64(final(host).world(), old(self).root@, path_index as nat, half(key, 0)),
            value == match find_u64(old(host).world(), old(self).root@, key, path_index as nat) {
                Some(found) => found,
                None => 0,
            },
        decreases 2 - path_index,
    {
        let local_index = #[verifier::truncate] ((key >> (32 * path_index)) as u32);
        proof {
            lemma_half_in_range(key, path_index as nat);
            assert(key >> 0 == key) by (bit_vector);
            assert((key as u32) as int == (key & 0xffff_ffff) as int) by (bit_vector);
            assert(((key >> 32) as u32) as int == (key >> 32) as int) by (bit_vector);
        }
        assert(local_index as int == half(key, path_index as nat));
        let mut stored_data = [0u64; 4];
        self.get_simple(host, local_index, &mut stored_data);
        proof {
            lemma_grown_u64(
                old(host).world(),
                host.world(),
                self.root@,
                path_index as nat,
                half(key, 0),
            );
        }
        if is_leaf(stored_data[3]) {
            if !is_empty(stored_data[3]) && key == stored_data[0] {
                stored_data[1]
            } else {
                0
            }
        } else {
            // a tree at level 1 has no sub-trees
            let ghost held = stored_data@;
            stored_data[3] = stored_data[3] & !IS_NODE_BIT;
            assert(stored_data@ =~= held.update(3, held[3] & !IS_NODE_BIT));
            let mut sub_merkle = Merkle::load(stored_data);
            proof {
                lemma_grown_u64(
                    old(host).world(),
                    host.world(),
                    sub_merkle.root@,
                    1,
                    half(key, 0),
                );
            }
            let ghost read = host.world();
            let value = sub_merkle.smt_get_local_u64(host, key, path_index + 1);
            proof {
                lemma_grows_same(read, host.world());
                lemma_grown_u64(read, host.world(), self.root@, path_index as nat, half(key, 0));
                assert(host.world().trace =~= old(host).world().trace + trail_u64(
                    old(host).world(),
                    self.root@,
                    key,
                    path_index as nat,
                ));
            }
            value
        }
    }

    /// Puts `data` under `key` in the tree at level `path_index`. A slot
    /// that was never written, or holds `key`, receives key and value. A
    /// slot that holds another key becomes a sub-tree with both keys; that
    /// happens at level 0 only. A slot that holds a sub-tree receives the
    /// root of that tree after the same was done in it.
    pub fn smt_set_local_u64<H: Host>(&mut self, host: &mut H, key: u64, path_index: usize, data: u64)
        requires
            old(host).inv(),
            path_index < 2,
            tree_ok_u64(old(host).world(), old(self).root@, path_index as nat, half(key, 0)),
        ensures
            final(host).inv(),
            set_done_u64(
                old(host).world(),
                old(self).root@,
                key,
                data,
                path_index as nat,
                final(host).world(),
                final(self).root@,
            ),
        decreases 2 - path_index,
    {
        let ghost level = path_index as nat;
        let ghost before = old(host).world();
        let ghost root = self.root@;
        let local_index = #[verifier::truncate] ((key >> (32 * path_index)) as u32);
        proof {
            lemma_half_in_range(key, level);
            assert(key >> 0 == key) by (bit_vector);
            assert((key as u32) as int == (key & 0xffff_ffff) as int) by (bit_vector);
            assert(((key >> 32) as u32) as int == (key >> 32) as int) by (bit_vector);
            host.inv_is_sound();
        }
        let ghost slot = local_index as int;
        assert(slot == half(key, level));
        let mut stored_data = [0u64; 4];
        self.get_simple(host, local_index, &mut stored_data);
        let ghost read = host.world();
        let ghost held = stored_data@;
        assert(before.leaf(root, slot).len() == 4);
        if is_leaf(stored_data[3]) {
            if is_empty(stored_data[3]) {
                let fresh = [key, data, 0, IS_EMPTY_BIT];
                self.set_simple(host, local_index, &fresh, None);
                proof {
                    assert(fresh@ =~= entry_words(key, data));
                    lemma_leaf_done_u64(before, root, key, data, level, fresh@, self.root@, host.world());
                }
            } else if key == stored_data[0] {
                stored_data[0] = key;
                stored_data[1] = data;
                self.set_simple(host, local_index, &stored_data, None);
                proof {
                    assert(stored_data@ =~= held.update(0, key).update(1, data));
                    lemma_leaf_done_u64(
                        before,
                        root,
                        key,
                        data,
                        level,
                        stored_data@,
                        self.root@,
                        host.world(),
                    );
                }
            } else {
                // two keys in one slot: both move to a sub-tree, one level down
                proof {
                    lemma_grows_same(before, read);
                    lemma_grown_u64(before, read, root, level, half(key, 0));
                    assert(read.leaf(root, slot) == held);
                    if level == 1 {
                        lemma_halves_make_key(key, stored_data[0]);
                    }
                    lemma_empty_u64(read, 1, slot);
                }
                let mut sub_merkle = Merkle::new();
                sub_merkle.smt_set_local_u64(host, stored_data[0], path_index + 1, stored_data[1]);
                let ghost first = host.world();
                let ghost first_root = sub_merkle.root@;
                sub_merkle.smt_set_local_u64(host, key, path_index + 1, data);
                let ghost second = host.world();
                let ghost sub_root = sub_merkle.root@;
                stored_data = sub_merkle.root;
                stored_data[3] = stored_data[3] | IS_NODE_BIT;
                proof {
                    host.inv_is_sound();
                    assert(stored_data@ =~= sub_root.update(3, sub_root[3] | IS_NODE_BIT));
                }
                self.set_simple(host, local_index, &stored_data, None);
                proof {
                    lemma_split_done_u64(
                        before,
                        root,
                        key,
                        data,
                        first,
                        first_root,
                        second,
                        sub_root,
                        self.root@,
                        host.world(),
                    );
                }
            }
        } else {
            // a tree at level 1 has no sub-trees
            stored_data[3] = stored_data[3] & !IS_NODE_BIT;
            assert(stored_data@ =~= held.update(3, held[3] & !IS_NODE_BIT));
            let mut sub_merkle = Merkle::load(stored_data);
            let ghost sub_before = sub_merkle.root@;
            proof {
                lemma_grows_same(before, read);
                lemma_grown_u64(before, read, root, level, half(key, 0));
                assert(read.leaf(root, slot) == held);
            }
            sub_merkle.smt_set_local_u64(host, key, path_index + 1, data);
            let ghost second = host.world();
            let ghost sub_root = sub_merkle.root@;
            let mut tagged = sub_merkle.root;
            tagged[3] = tagged[3] | IS_NODE_BIT;
            proof {
                host.inv_is_sound();
                assert(tagged@ =~= sub_root.update(3, sub_root[3] | IS_NODE_BIT));
            }
            self.set_simple(host, local_index, &tagged, None);
            proof {
                lemma_branch_done_u64(
                    before,
                    root,
                    key,
                    data,
                    second,
                    sub_root,
                    self.root@,
                    host.world(),
                );
            }
        }
    }

    /// The value under `key`, or 0 where the tree holds no such key.
    pub fn smt_get_u64<H: Host>(&mut self, host: &mut H, key: u64) -> (value: u64)
        requires
            old(host).inv(),
            is_tree_u64(old(host).world(), old(self).root@),
        ensures
            final(host).inv(),
            *final(self) == *old(self),
            final(host).world().same_store(old(host).world()),
            final(host).world().trace == old(host).world().trace + trail_u64(
                old(host).world(),
                old(self).root@,
                key,
                0,
            ),
            is_tree_u64(final(host).world(), old(self).root@),
            map_u64(final(host).world(), old(self).root@) == map_u64(
                old(host).world(),
                old(self).root@,
            ),
            value == if map_u64(old(host).world(), old(self).root@).contains_key(key) {
                map_u64(old(host).world(), old(self).root@)[key]
            } else {
                0
            },
    {
        proof {
            lemma_top_u64(host.world(), self.root@, 0, half(key, 0));
        }
        let value = self.smt_get_local_u64(host, key, 0);
        proof {
            lemma_top_u64(host.world(), self.root@, half(key, 0), 0);
            lemma_grows_same(old(host).world(), host.world());
            lemma_grown_u64(old(host).world(), host.world(), self.root@, 0, 0);
            assert(map_u64(host.world(), self.root@) =~= map_u64(old(host).world(), self.root@));
        }
        value
    }

    /// Puts `data` under `key` in the tree, in place of what was there.
    pub fn smt_set_u64<H: Host>(&mut self, host: &mut H, key: u64, data: u64)
        requires
            old(host).inv(),
            is_tree_u64(old(host).world(), old(self).root@),
        ensures
            final(host).inv(),
            set_gives_u64(
                old(host).world(),
                old(self).root@,
                key,
                data,
                final(host).world(),
                final(self).root@,
            ),
    {
        proof {
            lemma_top_u64(host.world(), self.root@, 0, half(key, 0));
        }
        self.smt_set_local_u64(host, key, 0, data);
        proof {
            lemma_top_u64(host.world(), self.root@, half(key, 0), 0);
            assert(map_u64(host.world(), self.root@) =~= map_u64(
                old(host).world(),
                old(self).root@,
            ).insert(key, data));
        }
    }
}

/// The tree in which no slot was written is a tree, and holds no key.
pub proof fn law_empty_misses_u64(world: World)
    requires
        world.sound(),
    ensures
        is_tree_u64(world, empty_root()),
        map_u64(world, empty_root()) == Map::<u64, u64>::empty(),
{
    lemma_empty_u64(world, 0, 0);
    assert(map_u64(world, empty_root()) =~= Map::<u64, u64>::empty());
}

/// After `data` was put under `key`, the tree holds `data` under `key`, and
/// under every other key what it held before.
pub proof fn law_round_trip_u64(
    world: World,
    root: Seq<u64>,
    key: u64,
    data: u64,
    after: World,
    next: Seq<u64>,
)
    requires
        set_gives_u64(world, root, key, data, after, next),
    ensures
        find_u64(after, next, key, 0) == Some(data),
        forall|other: u64|
            other != key ==> find_u64(after, next, other, 0) == find_u64(world, root, other, 0),
{
    let was = map_u64(world, root);
    let is = map_u64(after, next);
    assert(is.contains_key(key) && is[key] == data);
    assert forall|other: u64| other != key implies find_u64(after, next, other, 0) == find_u64(
        world,
        root,
        other,
        0,
    ) by {
        assert(is.contains_key(other) == was.contains_key(other));
        if was.contains_key(other) {
            assert(is[other] == was[other]);
        }
    }
}

/// After two values were put under one key, the tree holds the second; and
/// where the values differ, so do the roots after the first and the second.
pub proof fn law_overwrite_u64(
    world: World,
    root: Seq<u64>,
    key: u64,
    first: u64,
    second: u64,
    mid: World,
    mid_root: Seq<u64>,
    after: World,
    next: Seq<u64>,
)
    requires
        set_gives_u64(world, root, key, first, mid, mid_root),
        set_gives_u64(mid, mid_root, key, second, after, next),
    ensures
        find_u64(after, next, key, 0) == Some(second),
        first != second ==> mid_root != next,
{
    law_round_trip_u64(world, root, key, first, mid, mid_root);
    law_round_trip_u64(mid, mid_root, key, second, after, next);
    if mid_root == next {
        lemma_grown_u64(mid, after, mid_root, 0, 0);
    }
}

/// Two keys with the same low half that were put in the tree one after the
/// other are both held, each with its own value.
pub proof fn law_collision_u64(
    world: World,
    root: Seq<u64>,
    one: u64,
    one_data: u64,
    other: u64,
    other_data: u64,
    mid: World,
    mid_root: Seq<u64>,
    after: World,
    next: Seq<u64>,
)
    requires
        one != other,
        half(one, 0) == half(other, 0),
        set_gives_u64(world, root, one, one_data, mid, mid_root),
        set_gives_u64(mid, mid_root, other, other_data, after, next),
    ensures
        find_u64(after, next, one, 0) == Some(one_data),
        find_u64(after, next, other, 0) == Some(other_data),
{
    law_round_trip_u64(world, root, one, one_data, mid, mid_root);
    law_round_trip_u64(mid, mid_root, other, other_data, after, next);
}

/// In a tree that the library built, the slot that holds the value of a key
/// has the node flag clear and the flag of a written slot set, and holds the
/// key and its value. A slot with the node flag set holds, once the flag is
/// cleared, the root of a sub-tree that the accumulator knows and that holds
/// two keys or more.
pub proof fn law_flags_u64(world: World, root: Seq<u64>, key: u64, level: nat, above: int)
    requires
        tree_ok_u64(world, root, level, above),
        find_u64(world, root, key, level) is Some,
    ensures
        resting_u64(world, root, key, level)[3] & IS_NODE_BIT == 0,
        resting_u64(world, root, key, level)[3] & IS_EMPTY_BIT != 0,
        resting_u64(world, root, key, level)[0] == key,
        Some(resting_u64(world, root, key, level)[1]) == find_u64(world, root, key, level),
        forall|i: int|
            0 <= i < slot_count() && (#[trigger] world.leaf(root, i))[3] & IS_NODE_BIT != 0
                ==> world.knows(
                world.leaf(root, i).update(3, world.leaf(root, i)[3] & !IS_NODE_BIT),
            ) && holds_two_u64(
                world,
                world.leaf(root, i).update(3, world.leaf(root, i)[3] & !IS_NODE_BIT),
            ),
    decreases 2 - level,
{
    let slot = half(key, level);
    lemma_half_in_range(key, level);
    let leaf = world.leaf(root, slot);
    if let Slot::Branch { root: sub } = slot_of(leaf) {
        law_flags_u64(world, sub, key, level + 1, slot);
    }
    assert forall|i: int|
        0 <= i < slot_count() && (#[trigger] world.leaf(root, i))[3] & IS_NODE_BIT
            != 0 implies world.knows(
        world.leaf(root, i).update(3, world.leaf(root, i)[3] & !IS_NODE_BIT),
    ) && holds_two_u64(
        world,
        world.leaf(root, i).update(3, world.leaf(root, i)[3] & !IS_NODE_BIT),
    ) by {
        let sub = world.leaf(root, i).update(3, world.leaf(root, i)[3] & !IS_NODE_BIT);
        assert(slot_of(world.leaf(root, i)) == Slot::Branch { root: sub });
        assert(tree_ok_u64(world, sub, 1, i));
    }
}

} // verus!
