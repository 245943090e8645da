//! The mathematical model of the tree: levels of digests, their reduction to
//! a root, the sibling path of a leaf, and the replay of such a path.
//!
//! A digest is modelled by the characters of its hexadecimal text, a level by
//! a sequence of digests.
use crate::digest::{combine, is_digest, leaf_digest};
use crate::pow2::{depth, is_pow2, next_pow2};
use vstd::prelude::*;

verus! {

/// Every member of `level` has the shape of a digest.
pub open spec fn all_digests(level: Seq<Seq<char>>) -> bool {
    forall|i: int| 0 <= i < level.len() ==> is_digest(#[trigger] level[i])
}

/// The digests of `records`, one per record, in order.
pub open spec fn leaf_digests(records: Seq<Seq<char>>) -> Seq<Seq<char>> {
    Seq::new(records.len(), |i: int| leaf_digest(records[i]))
}

/// `level` followed by copies of its last digest up to the next power of
/// two. An empty level stays empty.
pub open spec fn pad_level(level: Seq<Seq<char>>) -> Seq<Seq<char>> {
    if level.len() == 0 {
        level
    } else {
        Seq::new(
            next_pow2(level.len()),
            |i: int|
                if i < level.len() {
                    level[i]
                } else {
                    level.last()
                },
        )
    }
}

/// The leaf level built from `records`: their digests, padded.
pub open spec fn padded_leaves(records: Seq<Seq<char>>) -> Seq<Seq<char>> {
    pad_level(leaf_digests(records))
}

/// `i` is the lowest position of `level` that holds `digest`.
pub open spec fn is_first_match(level: Seq<Seq<char>>, digest: Seq<char>, i: int) -> bool {
    &&& 0 <= i < level.len()
    &&& level[i] == digest
    &&& forall|j: int| 0 <= j < i ==> level[j] != digest
}

/// The parent at position `i` of the level above `level`: the pair
/// `(level[2i], level[2i + 1])` combined, or `level[2i]` combined with
/// itself where it has no right neighbour.
pub open spec fn parent_at(level: Seq<Seq<char>>, i: int) -> Seq<char> {
    if 2 * i + 1 < level.len() {
        combine(level[2 * i], level[2 * i + 1])
    } else {
        combine(level[2 * i], level[2 * i])
    }
}

/// The level above `level`.
pub open spec fn next_level(level: Seq<Seq<char>>) -> Seq<Seq<char>> {
    Seq::new(((level.len() + 1) / 2) as nat, |i: int| parent_at(level, i))
}

/// The digest left after reducing `level` until one digest remains; the
/// empty digest for an empty level.
pub open spec fn root_of(level: Seq<Seq<char>>) -> Seq<char>
    decreases level.len(),
{
    if level.len() == 0 {
        Seq::empty()
    } else if level.len() == 1 {
        level[0]
    } else {
        root_of(next_level(level))
    }
}

/// The position of the node that shares a parent with the node at `index`.
pub open spec fn sibling_index(index: int) -> int {
    if index % 2 == 0 {
        index + 1
    } else {
        index - 1
    }
}

/// The sibling digests met on the way from position `index` of `level` up
/// to the level below the root, lowest first.
pub open spec fn sibling_path(level: Seq<Seq<char>>, index: int) -> Seq<Seq<char>>
    decreases level.len(),
{
    if level.len() <= 1 {
        Seq::empty()
    } else {
        seq![level[sibling_index(index)]] + sibling_path(next_level(level), index / 2)
    }
}

/// The membership path of the leaf at `index`: its own digest, then its
/// sibling path.
pub open spec fn membership_path(leaves: Seq<Seq<char>>, index: int) -> Seq<Seq<char>> {
    seq![leaves[index]] + sibling_path(leaves, index)
}

/// One step of a replay: `element`, at position `index` of its level,
/// combined with its sibling. An even position is a left child.
pub open spec fn step(element: Seq<char>, sibling: Seq<char>, index: int) -> Seq<char> {
    if index % 2 == 0 {
        combine(element, sibling)
    } else {
        combine(sibling, element)
    }
}

/// The digest reached from `element` at position `index` by combining it
/// with each of `siblings` in turn, halving the position after each.
pub open spec fn climb(element: Seq<char>, siblings: Seq<Seq<char>>, index: int) -> Seq<char>
    decreases siblings.len(),
{
    if siblings.len() == 0 {
        element
    } else {
        climb(step(element, siblings[0], index), siblings.drop_first(), index / 2)
    }
}

/// The root that `path`, a leaf digest followed by siblings, leads to when
/// the leaf sits at `index`.
pub open spec fn path_root(path: Seq<Seq<char>>, index: int) -> Seq<char> {
    climb(path[0], path.drop_first(), index)
}

/// The level above a level of two or more digests is shorter, and above a
/// power-of-two level it is a power-of-two level of half the length.
pub proof fn lemma_next_level_len(level: Seq<Seq<char>>)
    ensures
        next_level(level).len() == (level.len() + 1) / 2,
        is_pow2(level.len()) && level.len() >= 2 ==> is_pow2(next_level(level).len())
            && 2 * next_level(level).len() == level.len(),
{
}

/// A sibling path has one digest per level below the root.
pub proof fn lemma_sibling_path_len(level: Seq<Seq<char>>, index: int)
    ensures
        sibling_path(level, index).len() == depth(level.len()),
    decreases level.len(),
{
    if level.len() > 1 {
        lemma_sibling_path_len(next_level(level), index / 2);
    }
}

/// Replaying the sibling path of any position of a power-of-two level,
/// starting from the digest at that position, gives the root of the level.
pub proof fn lemma_climb_sibling_path(level: Seq<Seq<char>>, index: int)
    requires
        is_pow2(level.len()),
        0 <= index < level.len(),
    ensures
        climb(level[index], sibling_path(level, index), index) == root_of(level),
    decreases level.len(),
{
    if level.len() > 1 {
        let above = next_level(level);
        let siblings = sibling_path(level, index);
        lemma_next_level_len(level);
        assert(siblings.drop_first() =~= sibling_path(above, index / 2));
        assert(step(level[index], siblings[0], index) == above[index / 2]);
        lemma_climb_sibling_path(above, index / 2);
    }
}

} // verus!
