//! The tree itself: construction from records, the root, membership paths
//! and their verification.
use crate::digest::{combine, hash_pair, hash_text, is_digest, leaf_digest};
use crate::levels::{
    all_digests, climb, is_first_match, leaf_digests, lemma_next_level_len, membership_path, next_level,
    pad_level, padded_leaves, parent_at, path_root, root_of, sibling_path,
};
use crate::pow2::{
    is_pow2, is_power_of_two, lemma_next_pow2_bounds, lemma_next_pow2_is_least, next_pow2,
};
use vstd::prelude::*;

verus! {

/// Why a tree could not be built or a record could not be proved.
#[derive(Debug, PartialEq, Eq, Clone, Copy, Structural)]
pub enum InputError {
    /// No records were given.
    Empty,
    /// No leaf carries the digest of the record asked for.
    LeafNotFound,
}

/// What a tree holds, as mathematics: the records it was built from and its
/// leaf level, each string by its characters.
pub struct TreeView {
    pub records: Seq<Seq<char>>,
    pub leaves: Seq<Seq<char>>,
}

impl TreeView {
    /// There is at least one record, the leaves are the padded digests of
    /// the records, and each of them has the shape of a digest.
    pub open spec fn wf(self) -> bool {
        &&& self.records.len() > 0
        &&& self.leaves == padded_leaves(self.records)
        &&& all_digests(self.leaves)
    }
}

/// A Merkle tree over a non-empty list of records. It keeps the records and
/// the leaf level; the root and the paths are computed from the leaf level
/// when asked for.
#[derive(Debug, PartialEq)]
pub struct MerkleTree {
    input: Vec<String>,
    leaves: Vec<String>,
}

impl View for MerkleTree {
    type V = TreeView;

    closed spec fn view(&self) -> TreeView {
        TreeView { records: self.input.deep_view(), leaves: self.leaves.deep_view() }
    }
}

impl Clone for MerkleTree {
    fn clone(&self) -> (copy: Self)
        ensures
            copy@ == self@,
    {
        proof {
            use_type_invariant(self);
        }
        let input: Vec<String> = self.input.clone();
        let leaves: Vec<String> = self.leaves.clone();
        assert(input.deep_view() =~= self.input.deep_view());
        assert(leaves.deep_view() =~= self.leaves.deep_view());
        MerkleTree { input, leaves }
    }
}

impl MerkleTree {
    /// The invariant of every tree: its view is well formed.
    #[verifier::type_invariant]
    pub open spec fn inv(self) -> bool {
        self@.wf()
    }

    /// Builds the tree of `leaves_array`, or reports that there are no
    /// records.
    pub fn new(leaves_array: Vec<String>) -> (built: Result<MerkleTree, InputError>)
        ensures
            leaves_array@.len() == 0 <==> built == Err::<MerkleTree, InputError>(InputError::Empty),
            leaves_array@.len() > 0 <==> built is Ok,
            built matches Ok(tree) ==> tree@.records == leaves_array.deep_view() && tree@.wf(),
    {
        match MerkleTree::verify_input(&leaves_array) {
            Err(e) => { return Err(e); },
            Ok(()) => {},
        }
        let input: Vec<String> = leaves_array.clone();
        assert(input.deep_view() =~= leaves_array.deep_view());
        let leaves: Vec<String> = MerkleTree::hash_leaves(leaves_array);
        Ok(MerkleTree { input, leaves })
    }

    /// Hashes every record and pads the digests to a power of two with
    /// copies of the last one.
    fn hash_leaves(leaves_array: Vec<String>) -> (hashes: Vec<String>)
        ensures
            hashes.deep_view() == padded_leaves(leaves_array.deep_view()),
            all_digests(hashes.deep_view()),
    {
        let ghost records = leaves_array.deep_view();
        let mut hashes: Vec<String> = Vec::new();
        let mut i: usize = 0;
        while i < leaves_array.len()
            invariant
                records == leaves_array.deep_view(),
                i <= leaves_array@.len(),
                hashes@.len() == i,
                forall|j: int|
                    0 <= j < i ==> (#[trigger] hashes@[j])@ == leaf_digest(records[j])
                        && is_digest(hashes@[j]@),
            decreases leaves_array@.len() - i,
        {
            hashes.push(hash_text(leaves_array[i].as_str()));
            i += 1;
        }
        assert(hashes.deep_view() =~= leaf_digests(records));
        pad_to_power_of_two(hashes)
    }

    /// The root: the digest that remains when the leaf level is reduced
    /// pairwise until one digest is left.
    pub fn calculate_merkle_root(&self) -> (root: String)
        ensures
            root@ == root_of(self@.leaves),
            is_digest(root@),
    {
        proof {
            use_type_invariant(self);
            lemma_next_pow2_bounds(self@.records.len());
        }
        if self.leaves.is_empty() {
            return String::new();
        }
        let mut current_level: Vec<String> = self.leaves.clone();
        assert(current_level.deep_view() =~= self.leaves.deep_view());
        while current_level.len() > 1
            invariant
                current_level@.len() >= 1,
                all_digests(current_level.deep_view()),
                root_of(current_level.deep_view()) == root_of(self@.leaves),
            decreases current_level@.len(),
        {
            proof {
                lemma_next_level_len(current_level.deep_view());
            }
            let next_level: Vec<String> = self.reduce_level(current_level.as_slice());
            current_level = next_level;
        }
        current_level[0].clone()
    }

    /// Builds the level above `level`.
    fn reduce_level(&self, level: &[String]) -> (above: Vec<String>)
        ensures
            above.deep_view() == next_level(level.deep_view()),
            all_digests(above.deep_view()),
    {
        let len: usize = level.len();
        let pairs: usize = len / 2 + len % 2;
        let mut above: Vec<String> = Vec::new();
        let mut i: usize = 0;
        while i < pairs
            invariant
                len == level@.len(),
                pairs == (len + 1) / 2,
                i <= pairs,
                above@.len() == i,
                forall|j: int|
                    0 <= j < i ==> (#[trigger] above@[j])@ == parent_at(level.deep_view(), j)
                        && is_digest(above@[j]@),
            decreases pairs - i,
        {
            let left: &String = &level[2 * i];
            let right: &String = if 2 * i + 1 < len {
                &level[2 * i + 1]
            } else {
                left
            };
            let parent: String = self.hash_nodes(left.as_str(), right.as_str());
            above.push(parent);
            i += 1;
        }
        assert(above.deep_view() =~= next_level(level.deep_view()));
        above
    }

    /// Combines two child digests into their parent.
    fn hash_nodes(&self, left: &str, right: &str) -> (parent: String)
        ensures
            parent@ == combine(left@, right@),
            is_digest(parent@),
    {
        hash_pair(left, right)
    }

    /// The sibling digests on the way from the leaf at `index` to the root,
    /// lowest level first.
    pub fn prove_index(&self, index: usize) -> (siblings: Vec<String>)
        requires
            index < self@.leaves.len(),
        ensures
            siblings.deep_view() == sibling_path(self@.leaves, index as int),
            all_digests(siblings.deep_view()),
    {
        proof {
            use_type_invariant(self);
            lemma_next_pow2_bounds(self@.records.len());
        }
        let mut siblings: Vec<String> = Vec::new();
        let mut level: Vec<String> = self.leaves.clone();
        let mut position: usize = index;
        assert(level.deep_view() =~= self.leaves.deep_view());
        assert(siblings.deep_view() =~= Seq::<Seq<char>>::empty());
        while level.len() > 1
            invariant
                is_pow2(level@.len() as nat),
                position < level@.len(),
                all_digests(level.deep_view()),
                all_digests(siblings.deep_view()),
                siblings.deep_view() + sibling_path(level.deep_view(), position as int)
                    == sibling_path(self@.leaves, index as int),
            decreases level@.len(),
        {
            let sibling_index: usize = if position % 2 == 0 {
                position + 1
            } else {
                position - 1
            };
            let ghost before = siblings.deep_view();
            let ghost below = level.deep_view();
            siblings.push(level[sibling_index].clone());
            let parents: Vec<String> = self.reduce_level(level.as_slice());
            proof {
                lemma_next_level_len(below);
                assert(siblings.deep_view() =~= before + seq![below[sibling_index as int]]);
                assert(siblings.deep_view() + sibling_path(parents.deep_view(), position as int / 2)
                    =~= before + sibling_path(below, position as int));
            }
            level = parents;
            position = position / 2;
        }
        assert(siblings.deep_view() + Seq::<Seq<char>>::empty() =~= siblings.deep_view());
        siblings
    }

    /// The lowest position of the leaf level that holds `digest`, if any
    /// does.
    pub fn find_leaf(&self, digest: &String) -> (position: Option<usize>)
        ensures
            position is None <==> !self@.leaves.contains(digest@),
            position matches Some(i) ==> is_first_match(self@.leaves, digest@, i as int),
    {
        let mut index: usize = 0;
        while index < self.leaves.len()
            invariant
                index <= self.leaves@.len(),
                forall|j: int| 0 <= j < index ==> self@.leaves[j] != digest@,
            decreases self.leaves@.len() - index,
        {
            if self.leaves[index] == *digest {
                assert(self@.leaves[index as int] == digest@);
                return Some(index);
            }
            index += 1;
        }
        None
    }

    /// The membership path of `node_to_check`: its digest, then the sibling
    /// path of the first leaf that carries this digest. Fails when no leaf
    /// carries it. The tree is left as it was.
    pub fn leaf_exists(&mut self, node_to_check: String) -> (found: Result<Vec<String>, InputError>)
        ensures
            *final(self) == *old(self),
            found is Err <==> !old(self)@.leaves.contains(leaf_digest(node_to_check@)),
            found matches Err(e) ==> e == InputError::LeafNotFound,
            found matches Ok(path) ==> path@.len() > 0 && all_digests(path.deep_view()),
            found matches Ok(path) ==> exists|i: int|
                is_first_match(old(self)@.leaves, leaf_digest(node_to_check@), i)
                    && path.deep_view() == #[trigger] membership_path(old(self)@.leaves, i),
    {
        let hash: String = hash_text(node_to_check.as_str());
        match self.find_leaf(&hash) {
            Some(index) => {
                let mut path: Vec<String> = Vec::new();
                path.push(hash);
                let mut siblings: Vec<String> = self.prove_index(index);
                path.append(&mut siblings);
                assert(path.deep_view() =~= membership_path(self@.leaves, index as int));
                Ok(path)
            },
            None => Err(InputError::LeafNotFound),
        }
    }

    /// Hashes two strings as one message, `chunk1` first.
    pub fn hash_chunks(chunk1: String, chunk2: String) -> (digest: String)
        ensures
            digest@ == combine(chunk1@, chunk2@),
            is_digest(digest@),
    {
        hash_pair(chunk1.as_str(), chunk2.as_str())
    }

    /// Hashes one string.
    pub fn hash_string(input: String) -> (digest: String)
        ensures
            digest@ == leaf_digest(input@),
            is_digest(digest@),
    {
        hash_text(input.as_str())
    }

    /// The records the tree was built from.
    pub fn input(&self) -> (records: &Vec<String>)
        ensures
            records.deep_view() == self@.records,
    {
        &self.input
    }

    /// The leaf level.
    pub fn leaves(&self) -> (level: &Vec<String>)
        ensures
            level.deep_view() == self@.leaves,
    {
        &self.leaves
    }

    /// Rejects an empty list of records.
    fn verify_input(array: &Vec<String>) -> (checked: Result<(), InputError>)
        ensures
            array@.len() == 0 <==> checked == Err::<(), InputError>(InputError::Empty),
            array@.len() > 0 <==> checked is Ok,
    {
        if array.is_empty() {
            return Err(InputError::Empty);
        }
        Ok(())
    }
}

/// Pads `hashes` to a power-of-two length with copies of its last digest.
/// An empty list is returned as it is.
pub fn pad_to_power_of_two(hashes: Vec<String>) -> (padded: Vec<String>)
    ensures
        padded.deep_view() == pad_level(hashes.deep_view()),
{
    let ghost level = hashes.deep_view();
    let ghost n = level.len();
    let mut padded: Vec<String> = hashes;
    if padded.is_empty() {
        assert(padded.deep_view() =~= pad_level(level));
        return padded;
    }
    let mut len: usize = padded.len();
    proof {
        lemma_next_pow2_bounds(n);
    }
    while !is_power_of_two(len)
        invariant
            n == level.len(),
            n > 0,
            len == padded@.len(),
            n <= len <= next_pow2(n),
            is_pow2(next_pow2(n)),
            forall|j: int| 0 <= j < len ==> (#[trigger] padded@[j])@ == pad_level(level)[j],
        decreases next_pow2(n) - len,
    {
        let last: String = padded[len - 1].clone();
        padded.push(last);
        len = padded.len();
    }
    proof {
        lemma_next_pow2_is_least(n, len as nat);
        assert(padded.deep_view() =~= pad_level(level));
    }
    padded
}

/// Replays `path`, a leaf digest followed by its sibling path, for a leaf at
/// position `index`, and says whether the digest reached is `root`.
pub fn verify_proof(path: Vec<String>, root: &str, index: usize) -> (accepted: bool)
    requires
        path@.len() > 0,
    ensures
        accepted == (path_root(path.deep_view(), index as int) == root@),
{
    let ghost steps = path.deep_view();
    let mut element: String = path[0].clone();
    let mut current_index: usize = index;
    let mut i: usize = 1;
    assert(steps.skip(1) =~= steps.drop_first());
    while i < path.len()
        invariant
            steps == path.deep_view(),
            1 <= i <= path@.len(),
            climb(element@, steps.skip(i as int), current_index as int) == path_root(
                steps,
                index as int,
            ),
        decreases path@.len() - i,
    {
        let sibling: &String = &path[i];
        assert(steps.skip(i as int).drop_first() =~= steps.skip(i + 1));
        assert(steps.skip(i as int)[0] == sibling@);
        if current_index % 2 == 0 {
            element = hash_pair(element.as_str(), sibling.as_str());
        } else {
            element = hash_pair(sibling.as_str(), element.as_str());
        }
        current_index = current_index / 2;
        i += 1;
    }
    let claimed: String = root.to_owned();
    element == claimed
}

} // verus!
