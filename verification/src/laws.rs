//! What holds of every tree and every path, proved over the model.
use crate::digest::{keccak256_hex, leaf_digest};
use crate::levels::{
    climb, is_first_match, lemma_climb_sibling_path, lemma_sibling_path_len, membership_path,
    pad_level, padded_leaves, path_root, root_of, sibling_path, step,
};
use crate::merkle_tree::TreeView;
use crate::pow2::{
    depth, is_pow2, lemma_next_pow2_bounds, lemma_next_pow2_is_least,
    lemma_next_pow2_is_pow2_of_depth, lemma_next_pow2_of_pow2,
};
use vstd::arithmetic::power2::pow2;
use vstd::prelude::*;
use vstd::utf8::{encode_utf8, encode_utf8_decode_utf8};

verus! {

/// Two different messages with the same digest.
pub open spec fn is_collision(a: Seq<u8>, b: Seq<u8>) -> bool {
    a != b && keccak256_hex(a) == keccak256_hex(b)
}

/// Trees built from the same records have the same leaves and the same
/// root.
pub proof fn law_same_records_same_root(a: TreeView, b: TreeView)
    requires
        a.wf(),
        b.wf(),
        a.records == b.records,
    ensures
        a.leaves == b.leaves,
        root_of(a.leaves) == root_of(b.leaves),
{
}

/// The root of the tree of a single record is the digest of that record.
pub proof fn law_single_record_root(record: Seq<char>)
    ensures
        padded_leaves(seq![record]) == seq![leaf_digest(record)],
        root_of(padded_leaves(seq![record])) == leaf_digest(record),
{
    assert(padded_leaves(seq![record]) =~= seq![leaf_digest(record)]);
}

/// The leaf level of one or more records has the smallest power-of-two
/// length that is at least the number of records; it starts with the
/// digests of the records in order, and every further slot holds the digest
/// of the last record.
pub proof fn law_leaf_level_is_padded(records: Seq<Seq<char>>)
    requires
        records.len() > 0,
    ensures
        is_pow2(padded_leaves(records).len()),
        records.len() <= padded_leaves(records).len(),
        forall|p: nat|
            is_pow2(p) && records.len() <= p ==> padded_leaves(records).len() <= p,
        forall|i: int|
            0 <= i < records.len() ==> #[trigger] padded_leaves(records)[i] == leaf_digest(
                records[i],
            ),
        forall|i: int|
            records.len() <= i < padded_leaves(records).len() ==> #[trigger] padded_leaves(
                records,
            )[i] == leaf_digest(records.last()),
{
    lemma_next_pow2_bounds(records.len());
    assert forall|p: nat| is_pow2(p) && records.len() <= p implies padded_leaves(records).len()
        <= p by {
        lemma_next_pow2_is_least(records.len(), p);
    }
}

/// A level whose length is a power of two already is left as it is.
pub proof fn law_power_of_two_needs_no_padding(level: Seq<Seq<char>>)
    requires
        is_pow2(level.len()),
    ensures
        pad_level(level) == level,
{
    lemma_next_pow2_of_pow2(level.len());
    assert(pad_level(level) =~= level);
}

/// A membership path holds the leaf digest and one sibling per level below
/// the root: the binary logarithm of the number of leaves.
pub proof fn law_path_length(records: Seq<Seq<char>>, index: int)
    requires
        records.len() > 0,
    ensures
        membership_path(padded_leaves(records), index).len() == 1 + depth(
            padded_leaves(records).len(),
        ),
        pow2(depth(padded_leaves(records).len())) == padded_leaves(records).len(),
{
    let leaves = padded_leaves(records);
    lemma_sibling_path_len(leaves, index);
    lemma_next_pow2_bounds(records.len());
    lemma_next_pow2_of_pow2(leaves.len());
    lemma_next_pow2_is_pow2_of_depth(leaves.len());
}

/// The membership path of every leaf of a tree leads to the root of the
/// tree when it is replayed at the leaf's position.
pub proof fn law_path_round_trip(records: Seq<Seq<char>>, index: int)
    requires
        records.len() > 0,
        0 <= index < padded_leaves(records).len(),
    ensures
        path_root(membership_path(padded_leaves(records), index), index) == root_of(
            padded_leaves(records),
        ),
{
    let leaves = padded_leaves(records);
    lemma_next_pow2_bounds(records.len());
    assert(membership_path(leaves, index).drop_first() =~= sibling_path(leaves, index));
    lemma_climb_sibling_path(leaves, index);
}

/// The path found for a record, at the first leaf that carries its digest,
/// leads to the root.
pub proof fn law_found_path_leads_to_root(records: Seq<Seq<char>>, record: Seq<char>, index: int)
    requires
        records.len() > 0,
        is_first_match(padded_leaves(records), leaf_digest(record), index),
    ensures
        membership_path(padded_leaves(records), index)[0] == leaf_digest(record),
        path_root(membership_path(padded_leaves(records), index), index) == root_of(
            padded_leaves(records),
        ),
{
    law_path_round_trip(records, index);
}

/// A path that leads to one root does not lead to any other.
pub proof fn law_wrong_root_is_rejected(
    path: Seq<Seq<char>>,
    index: int,
    root: Seq<char>,
    claimed: Seq<char>,
)
    requires
        path_root(path, index) == root,
        claimed != root,
    ensures
        path_root(path, index) != claimed,
{
}

/// The message that a step hashes.
pub open spec fn step_message(element: Seq<char>, sibling: Seq<char>, index: int) -> Seq<u8> {
    if index % 2 == 0 {
        encode_utf8(element) + encode_utf8(sibling)
    } else {
        encode_utf8(sibling) + encode_utf8(element)
    }
}

/// Different texts have different bytes.
proof fn lemma_encode_utf8_injective(a: Seq<char>, b: Seq<char>)
    requires
        a != b,
    ensures
        encode_utf8(a) != encode_utf8(b),
{
    encode_utf8_decode_utf8(a);
    encode_utf8_decode_utf8(b);
}

/// Two steps that differ in exactly one of their two inputs hash different
/// messages.
proof fn lemma_step_messages_differ(
    element_a: Seq<char>,
    sibling_a: Seq<char>,
    element_b: Seq<char>,
    sibling_b: Seq<char>,
    index: int,
)
    requires
        (element_a == element_b) != (sibling_a == sibling_b),
    ensures
        step_message(element_a, sibling_a, index) != step_message(element_b, sibling_b, index),
{
    let ma = step_message(element_a, sibling_a, index);
    let mb = step_message(element_b, sibling_b, index);
    if element_a != element_b {
        lemma_encode_utf8_injective(element_a, element_b);
    } else {
        lemma_encode_utf8_injective(sibling_a, sibling_b);
    }
    let ea = encode_utf8(element_a);
    let eb = encode_utf8(element_b);
    let sa = encode_utf8(sibling_a);
    let sb = encode_utf8(sibling_b);
    if ma == mb {
        if index % 2 == 0 {
            assert(ma == ea + sa);
            assert(mb == eb + sb);
            assert(ea.len() + sa.len() == eb.len() + sb.len());
            assert(ea =~= (ea + sa).subrange(0, ea.len() as int));
            assert(eb =~= (eb + sb).subrange(0, eb.len() as int));
            assert(sa =~= (ea + sa).subrange(ea.len() as int, (ea + sa).len() as int));
            assert(sb =~= (eb + sb).subrange(eb.len() as int, (eb + sb).len() as int));
            assert(false);
        } else {
            assert(ma == sa + ea);
            assert(mb == sb + eb);
            assert(ea.len() + sa.len() == eb.len() + sb.len());
            assert(sa =~= (sa + ea).subrange(0, sa.len() as int));
            assert(sb =~= (sb + eb).subrange(0, sb.len() as int));
            assert(ea =~= (sa + ea).subrange(sa.len() as int, (sa + ea).len() as int));
            assert(eb =~= (sb + eb).subrange(sb.len() as int, (sb + eb).len() as int));
            assert(false);
        }
    }
}

/// Climbing from two different digests along the same siblings ends in
/// different digests, unless two different messages met on the way have the
/// same digest; the result names such a pair.
pub proof fn lemma_climb_keeps_difference(
    element_a: Seq<char>,
    element_b: Seq<char>,
    siblings: Seq<Seq<char>>,
    index: int,
) -> (pair: (Seq<u8>, Seq<u8>))
    requires
        element_a != element_b,
    ensures
        climb(element_a, siblings, index) != climb(element_b, siblings, index) || is_collision(
            pair.0,
            pair.1,
        ),
    decreases siblings.len(),
{
    if siblings.len() == 0 {
        (Seq::empty(), Seq::empty())
    } else {
        let ma = step_message(element_a, siblings[0], index);
        let mb = step_message(element_b, siblings[0], index);
        lemma_step_messages_differ(element_a, siblings[0], element_b, siblings[0], index);
        if keccak256_hex(ma) == keccak256_hex(mb) {
            (ma, mb)
        } else {
            lemma_climb_keeps_difference(
                step(element_a, siblings[0], index),
                step(element_b, siblings[0], index),
                siblings.drop_first(),
                index / 2,
            )
        }
    }
}

/// Replacing one sibling changes the digest that a climb ends in, unless
/// two different messages met on the way have the same digest; the result
/// names such a pair.
pub proof fn lemma_climb_detects_forged_sibling(
    element: Seq<char>,
    siblings: Seq<Seq<char>>,
    index: int,
    at: int,
    forged: Seq<char>,
) -> (pair: (Seq<u8>, Seq<u8>))
    requires
        0 <= at < siblings.len(),
        forged != siblings[at],
    ensures
        climb(element, siblings.update(at, forged), index) != climb(element, siblings, index)
            || is_collision(pair.0, pair.1),
    decreases siblings.len(),
{
    let changed = siblings.update(at, forged);
    if at == 0 {
        assert(changed.drop_first() =~= siblings.drop_first());
        let ma = step_message(element, forged, index);
        let mb = step_message(element, siblings[0], index);
        lemma_step_messages_differ(element, forged, element, siblings[0], index);
        if keccak256_hex(ma) == keccak256_hex(mb) {
            (ma, mb)
        } else {
            lemma_climb_keeps_difference(
                step(element, forged, index),
                step(element, siblings[0], index),
                siblings.drop_first(),
                index / 2,
            )
        }
    } else {
        assert(changed.drop_first() =~= siblings.drop_first().update(at - 1, forged));
        lemma_climb_detects_forged_sibling(
            step(element, siblings[0], index),
            siblings.drop_first(),
            index / 2,
            at - 1,
            forged,
        )
    }
}

/// Replacing any one digest of a path, the leaf digest or a sibling,
/// changes the root that the path leads to, at every position, unless two
/// different messages have the same Keccak-256 digest; the result names such
/// a pair. So a path that was accepted for a root is rejected for that root
/// once one of its digests has been replaced, short of a hash collision.
pub proof fn law_tampered_path_is_rejected(
    path: Seq<Seq<char>>,
    index: int,
    at: int,
    forged: Seq<char>,
) -> (pair: (Seq<u8>, Seq<u8>))
    requires
        0 <= at < path.len(),
        forged != path[at],
    ensures
        path_root(path.update(at, forged), index) != path_root(path, index) || is_collision(
            pair.0,
            pair.1,
        ),
{
    let changed = path.update(at, forged);
    if at == 0 {
        assert(changed.drop_first() =~= path.drop_first());
        lemma_climb_keeps_difference(forged, path[0], path.drop_first(), index)
    } else {
        assert(changed.drop_first() =~= path.drop_first().update(at - 1, forged));
        lemma_climb_detects_forged_sibling(path[0], path.drop_first(), index, at - 1, forged)
    }
}

} // verus!
