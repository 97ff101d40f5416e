//! The Merkle tree over the leaves of a node, and proofs that one leaf is
//! under the root of such a tree.
//!
//! The tree is binary and built from the bottom: each row pairs the hashes
//! of the row below, left to right, and hashes every pair; a hash left
//! without a partner at the end of a row is paired with itself. The one
//! hash of the top row is the root. A tree of one leaf has that leaf as
//! its root.
use crate::hashing::leaf_hashes;
use crate::hashing::sha256;
use crate::hashing::Sha256Algorithm;
use crate::node::Node;
use vstd::prelude::*;

verus! {
/// The hash of a pair: the digest of the left hash followed by the right.
pub open spec fn pair_hash(left: Seq<u8>, right: Seq<u8>) -> Seq<u8> {
    sha256(left + right)
}

/// The partner of place `i` in a row of `len` hashes: the place beside it
/// in its pair, or `i` itself where it stands alone at the end of the row.
pub open spec fn partner(len: int, i: int) -> int {
    if i % 2 == 1 {
        i - 1
    } else if i + 1 < len {
        i + 1
    } else {
        i
    }
}

/// The row above `row`: the hash of each pair of `row`.
pub open spec fn next_row(row: Seq<Seq<u8>>) -> Seq<Seq<u8>> {
    Seq::new(
        ((row.len() + 1) / 2) as nat,
        |i: int| pair_hash(row[2 * i], row[partner(row.len() as int, 2 * i)]),
    )
}

/// The root of the tree over `leaves`, which are not empty.
pub open spec fn merkle_root(leaves: Seq<Seq<u8>>) -> Seq<u8>
    decreases leaves.len(),
{
    if leaves.len() <= 1 {
        leaves[0]
    } else {
        merkle_root(next_row(leaves))
    }
}

/// One step of a proof: the hash to pair with, and whether it stands to
/// the left.
pub type Step = (Seq<u8>, bool);

/// The hash one step up from `item`.
pub open spec fn step_up(item: Seq<u8>, step: Step) -> Seq<u8> {
    if step.1 {
        pair_hash(step.0, item)
    } else {
        pair_hash(item, step.0)
    }
}

/// The hash that a path of steps leads to from `item`.
pub open spec fn fold_path(item: Seq<u8>, path: Seq<Step>) -> Seq<u8>
    decreases path.len(),
{
    if path.len() == 0 {
        item
    } else {
        fold_path(step_up(item, path[0]), path.drop_first())
    }
}

/// The path from leaf `index` of the tree over `leaves` to its root: row
/// by row, the partner of the hash on the way up.
pub open spec fn path_of(leaves: Seq<Seq<u8>>, index: int) -> Seq<Step>
    decreases leaves.len(),
{
    if leaves.len() <= 1 {
        Seq::<Step>::empty()
    } else {
        seq![(leaves[partner(leaves.len() as int, index)], index % 2 == 1)] + path_of(
            next_row(leaves),
            index / 2,
        )
    }
}

/// What can be wrong with a proof, or with the request for one.
#[derive(Clone, Copy, Debug, PartialEq, Eq)]
pub enum ProofError {
    /// The tree has no leaf of the index asked for.
    InvalidIndex,
    /// The path of the proof does not lead from its leaf to its root.
    InvalidPath,
    /// The root of the proof is not the expected root.
    RootMismatch,
    /// The leaf of the proof is not the expected leaf.
    LeafMismatch,
}

/// What the verification of a proof answers: the proof given by its leaf,
/// its root and its path, held against the expected root and leaf. The
/// three checks are made in this order, and the first that fails names
/// the error.
pub open spec fn verdict(
    item: Seq<u8>,
    root: Seq<u8>,
    path: Seq<Step>,
    expected_root: Seq<u8>,
    expected_leaf: Seq<u8>,
) -> Result<(), ProofError> {
    if fold_path(item, path) != root {
        Err(ProofError::InvalidPath)
    } else if root != expected_root {
        Err(ProofError::RootMismatch)
    } else if item != expected_leaf {
        Err(ProofError::LeafMismatch)
    } else {
        Ok(())
    }
}

/// The path of a leaf leads from the leaf to the root of its tree.
pub proof fn lemma_path_leads_to_root(leaves: Seq<Seq<u8>>, index: int)
    requires
        0 <= index < leaves.len(),
    ensures
        fold_path(leaves[index], path_of(leaves, index)) == merkle_root(leaves),
    decreases leaves.len(),
{
    if leaves.len() > 1 {
        let above = next_row(leaves);
        let path = path_of(leaves, index);
        assert(path.drop_first() =~= path_of(above, index / 2));
        lemma_path_leads_to_root(above, index / 2);
    }
}

/// Proof soundness: the proof generated for any leaf of a tree, held
/// against the root of the tree and that leaf, is accepted.
pub proof fn lemma_proof_soundness(leaves: Seq<Seq<u8>>, index: int)
    requires
        0 <= index < leaves.len(),
    ensures
        verdict(
            leaves[index],
            merkle_root(leaves),
            path_of(leaves, index),
            merkle_root(leaves),
            leaves[index],
        ) is Ok,
{
    lemma_path_leads_to_root(leaves, index);
}

/// Tamper detection: the proof generated for any leaf of a tree is
/// refused with `RootMismatch` when held against any other root, and with
/// `LeafMismatch` when held against the right root and any other leaf.
pub proof fn lemma_proof_tamper_detection(
    leaves: Seq<Seq<u8>>,
    index: int,
    other_root: Seq<u8>,
    other_leaf: Seq<u8>,
)
    requires
        0 <= index < leaves.len(),
    ensures
        other_root != merkle_root(leaves) ==> verdict(
            leaves[index],
            merkle_root(leaves),
            path_of(leaves, index),
            other_root,
            leaves[index],
        ) == Err::<(), ProofError>(ProofError::RootMismatch),
        other_leaf != leaves[index] ==> verdict(
            leaves[index],
            merkle_root(leaves),
            path_of(leaves, index),
            merkle_root(leaves),
            other_leaf,
        ) == Err::<(), ProofError>(ProofError::LeafMismatch),
{
    lemma_path_leads_to_root(leaves, index);
}

/// The hashes of a row, each as its bytes.
pub open spec fn hashes(row: Seq<[u8; 32]>) -> Seq<Seq<u8>> {
    Seq::new(row.len(), |i: int| row[i]@)
}

/// The steps of a path, each with its hash as bytes.
pub open spec fn steps(path: Seq<([u8; 32], bool)>) -> Seq<Step> {
    Seq::new(path.len(), |i: int| (path[i].0@, path[i].1))
}

/// Whether two hashes are the same.
pub fn same_hash(a: &[u8; 32], b: &[u8; 32]) -> (same: bool)
    ensures
        same == (a@ == b@),
{
    let mut i: usize = 0;
    while i < 32
        invariant
            i <= 32,
            forall|j: int| 0 <= j < i ==> a@[j] == b@[j],
        decreases 32 - i,
    {
        if a[i] != b[i] {
            return false;
        }
        i = i + 1;
    }
    assert(a@ =~= b@);
    true
}

/// Computes the row above a row that is not empty.
fn row_above(row: &Vec<[u8; 32]>) -> (above: Vec<[u8; 32]>)
    requires
        row.len() > 0,
    ensures
        hashes(above@) == next_row(hashes(row@)),
        above.len() == (row.len() + 1) / 2,
{
    let len = row.len();
    let mut above: Vec<[u8; 32]> = Vec::new();
    let mut state = Sha256Algorithm::default();
    let mut j: usize = 0;
    while j < len
        invariant
            len == row.len(),
            j <= len,
            j % 2 == 0 || j == len,
            above.len() == (j + 1) / 2,
            forall|k: int|
                0 <= k < above.len() ==> (#[trigger] above@[k])@ == next_row(hashes(row@))[k],
        decreases len - j,
    {
        let paired = len - j > 1;
        let right = if paired {
            row[j + 1]
        } else {
            row[j]
        };
        let up = state.node(row[j], right);
        proof {
            assert(partner(len as int, j as int) == if paired {
                j + 1
            } else {
                j as int
            });
        }
        above.push(up);
        j = if paired {
            j + 2
        } else {
            len
        };
    }
    above
}

/// The Merkle tree over a row of leaves.
pub struct MerkleTree {
    leaves: Vec<[u8; 32]>,
    root: [u8; 32],
}

impl MerkleTree {
    /// The tree has a leaf, and its root is the root of the tree over its
    /// leaves.
    pub closed spec fn wf(&self) -> bool {
        &&& self.leaves@.len() > 0
        &&& self.root@ == merkle_root(hashes(self.leaves@))
    }

    /// The leaves of the tree, each as its bytes.
    pub closed spec fn spec_leaves(&self) -> Seq<Seq<u8>> {
        hashes(self.leaves@)
    }

    /// The root of the tree as bytes.
    pub closed spec fn spec_root(&self) -> Seq<u8> {
        self.root@
    }

    /// A well-formed tree has a leaf and the root of the tree over its
    /// leaves.
    pub proof fn lemma_wf(&self)
        requires
            self.wf(),
        ensures
            self.spec_leaves().len() > 0,
            self.spec_root() == merkle_root(self.spec_leaves()),
    {
    }

    /// Builds the tree over leaves of which there is at least one.
    fn build(leaves: Vec<[u8; 32]>) -> (tree: MerkleTree)
        requires
            leaves@.len() > 0,
        ensures
            tree.wf(),
            tree.spec_leaves() == hashes(leaves@),
    {
        if leaves.len() == 1 {
            let root = leaves[0];
            return MerkleTree { leaves, root };
        }
        let mut row: Vec<[u8; 32]> = row_above(&leaves);
        while row.len() > 1
            invariant
                row.len() > 0,
                leaves@.len() > 0,
                merkle_root(hashes(row@)) == merkle_root(hashes(leaves@)),
            decreases row.len(),
        {
            row = row_above(&row);
        }
        let root = row[0];
        MerkleTree { leaves, root }
    }

    /// Builds the tree over the given leaves. There is no tree without
    /// leaves: for an empty row the answer is `None`.
    pub fn from_leaves(leaves: Vec<[u8; 32]>) -> (tree: Option<MerkleTree>)
        ensures
            tree is Some <==> leaves@.len() > 0,
            tree matches Some(t) ==> t.wf() && t.spec_leaves() == hashes(leaves@),
    {
        if leaves.len() == 0 {
            None
        } else {
            Some(Self::build(leaves))
        }
    }

    /// The root hash.
    pub fn root(&self) -> (root: [u8; 32])
        ensures
            root@ == self.spec_root(),
    {
        self.root
    }

    /// The number of leaves.
    pub fn leafs(&self) -> (count: usize)
        ensures
            count == self.spec_leaves().len(),
    {
        self.leaves.len()
    }

    /// The leaf of the given index, where the tree has one.
    pub fn leaf(&self, index: usize) -> (leaf: Option<[u8; 32]>)
        ensures
            leaf is Some <==> index < self.spec_leaves().len(),
            leaf matches Some(hash) ==> hash@ == self.spec_leaves()[index as int],
    {
        if index < self.leaves.len() {
            Some(self.leaves[index])
        } else {
            None
        }
    }

    /// The proof that the leaf of the given index is under the root of
    /// this tree. A tree has no proof for an index that is not below its
    /// number of leaves: that request is refused with `InvalidIndex`.
    pub fn gen_proof(&self, index: usize) -> (proof: Result<Proof, ProofError>)
        requires
            self.wf(),
        ensures
            proof is Ok <==> index < self.spec_leaves().len(),
            proof matches Ok(p) ==> p.spec_item() == self.spec_leaves()[index as int]
                && p.spec_root() == self.spec_root() && p.spec_path() == path_of(
                self.spec_leaves(),
                index as int,
            ),
            proof matches Err(e) ==> e == ProofError::InvalidIndex,
    {
        if index >= self.leaves.len() {
            return Err(ProofError::InvalidIndex);
        }
        let item = self.leaves[index];
        let mut path: Vec<([u8; 32], bool)> = Vec::new();
        if self.leaves.len() == 1 {
            return Ok(Proof { item, root: self.root, path });
        }
        let mut at: usize = index;
        let first = Self::step_at(&self.leaves, at);
        path.push(first);
        let mut row: Vec<[u8; 32]> = row_above(&self.leaves);
        at = at / 2;
        assert(steps(path@) + path_of(hashes(row@), at as int) =~= path_of(
            hashes(self.leaves@),
            index as int,
        ));
        while row.len() > 1
            invariant
                row.len() > 0,
                at < row.len(),
                steps(path@) + path_of(hashes(row@), at as int) == path_of(
                    hashes(self.leaves@),
                    index as int,
                ),
            decreases row.len(),
        {
            let ghost before = steps(path@);
            let step = Self::step_at(&row, at);
            path.push(step);
            let above = row_above(&row);
            proof {
                assert(steps(path@) + path_of(hashes(above@), at as int / 2) =~= before + path_of(
                    hashes(row@),
                    at as int,
                ));
            }
            row = above;
            at = at / 2;
        }
        Ok(Proof { item, root: self.root, path })
    }

    /// The step up from place `at` of a row: its partner, and whether the
    /// partner stands to the left.
    fn step_at(row: &Vec<[u8; 32]>, at: usize) -> (step: ([u8; 32], bool))
        requires
            at < row.len(),
        ensures
            step.0@ == hashes(row@)[partner(row.len() as int, at as int)],
            step.1 == (at % 2 == 1),
    {
        if at % 2 == 1 {
            (row[at - 1], true)
        } else if row.len() - at > 1 {
            (row[at + 1], false)
        } else {
            (row[at], false)
        }
    }
}

/// A proof that a leaf is under a root: the leaf, the root, and the path
/// of partner hashes from the one to the other.
pub struct Proof {
    item: [u8; 32],
    root: [u8; 32],
    path: Vec<([u8; 32], bool)>,
}

impl Proof {
    /// The leaf of the proof as bytes.
    pub closed spec fn spec_item(&self) -> Seq<u8> {
        self.item@
    }

    /// The root of the proof as bytes.
    pub closed spec fn spec_root(&self) -> Seq<u8> {
        self.root@
    }

    /// The path of the proof.
    pub closed spec fn spec_path(&self) -> Seq<Step> {
        steps(self.path@)
    }

    /// A proof made of the given parts, whether they fit or not.
    pub fn new(item: [u8; 32], root: [u8; 32], path: Vec<([u8; 32], bool)>) -> (proof: Proof)
        ensures
            proof.spec_item() == item@,
            proof.spec_root() == root@,
            proof.spec_path() == steps(path@),
    {
        Proof { item, root, path }
    }

    /// The leaf that the proof is about.
    pub fn item(&self) -> (item: [u8; 32])
        ensures
            item@ == self.spec_item(),
    {
        self.item
    }

    /// The root that the proof leads to.
    pub fn root(&self) -> (root: [u8; 32])
        ensures
            root@ == self.spec_root(),
    {
        self.root
    }

    /// The number of steps from the leaf to the root.
    pub fn path_len(&self) -> (len: usize)
        ensures
            len == self.spec_path().len(),
    {
        self.path.len()
    }

    /// The step of the given place on the way from the leaf to the root:
    /// the hash to pair with, and whether it stands to the left.
    pub fn step(&self, index: usize) -> (step: ([u8; 32], bool))
        requires
            index < self.spec_path().len(),
        ensures
            step.0@ == self.spec_path()[index as int].0,
            step.1 == self.spec_path()[index as int].1,
    {
        self.path[index]
    }

    /// Whether the path of the proof leads from its leaf to its root.
    pub fn validate(&self) -> (valid: bool)
        ensures
            valid == (fold_path(self.spec_item(), self.spec_path()) == self.spec_root()),
    {
        let mut state = Sha256Algorithm::default();
        let mut current = self.item;
        let mut i: usize = 0;
        assert(steps(self.path@).skip(0) =~= steps(self.path@));
        while i < self.path.len()
            invariant
                i <= self.path.len(),
                fold_path(current@, steps(self.path@).skip(i as int)) == fold_path(
                    self.item@,
                    steps(self.path@),
                ),
            decreases self.path.len() - i,
        {
            let (sibling, left) = self.path[i];
            proof {
                let rest = steps(self.path@).skip(i as int);
                assert(rest.drop_first() =~= steps(self.path@).skip(i + 1));
            }
            current = if left {
                state.node(sibling, current)
            } else {
                state.node(current, sibling)
            };
            i = i + 1;
        }
        same_hash(&current, &self.root)
    }
}

/// Builds the Merkle tree of a node. Its leaves are the digest of the
/// node's own counter and then the hash of each child's subtree, in
/// ascending order of the children's names: one leaf more than the node
/// has children.
pub fn create_merkle_tree(node: &Node) -> (tree: MerkleTree)
    requires
        node.wf(),
    ensures
        tree.wf(),
        tree.spec_leaves() == leaf_hashes(node.shape()),
        tree.spec_leaves().len() == 1 + node.shape().children.len(),
{
    let mut leaves: Vec<[u8; 32]> = Vec::new();
    leaves.push(node.crdt().digest());
    let n = node.child_count();
    let mut i: usize = 0;
    while i < n
        invariant
            i <= n,
            node.wf(),
            n == node.shape().children.len(),
            leaves.len() == i + 1,
            forall|k: int|
                0 <= k < leaves.len() ==> (#[trigger] leaves@[k])@ == leaf_hashes(node.shape())[k],
        decreases n - i,
    {
        leaves.push(node.child_at(i).digest());
        i = i + 1;
    }
    MerkleTree::build(leaves)
}

/// The proof for the leaf of the given index of a tree, or `InvalidIndex`
/// where the tree has no such leaf.
pub fn generate_proof(merkle_tree: &MerkleTree, index: usize) -> (proof: Result<Proof, ProofError>)
    requires
        merkle_tree.wf(),
    ensures
        proof is Ok <==> index < merkle_tree.spec_leaves().len(),
        proof matches Ok(p) ==> p.spec_item() == merkle_tree.spec_leaves()[index as int]
            && p.spec_root() == merkle_tree.spec_root() && p.spec_path() == path_of(
            merkle_tree.spec_leaves(),
            index as int,
        ),
        proof matches Err(e) ==> e == ProofError::InvalidIndex,
{
    merkle_tree.gen_proof(index)
}

/// Holds a proof against an expected root and an expected leaf. It is
/// accepted only if its path leads from its leaf to its root, its root is
/// the expected root, and its leaf is the expected leaf; where one of the
/// three fails, the first that does names the error.
pub fn verify_proof(proof: &Proof, root: &[u8; 32], leaf: &[u8; 32]) -> (result: Result<
    (),
    ProofError,
>)
    ensures
        result == verdict(proof.spec_item(), proof.spec_root(), proof.spec_path(), root@, leaf@),
{
    if !proof.validate() {
        return Err(ProofError::InvalidPath);
    }
    let proof_root = proof.root();
    if !same_hash(&proof_root, root) {
        return Err(ProofError::RootMismatch);
    }
    let proof_item = proof.item();
    if !same_hash(&proof_item, leaf) {
        return Err(ProofError::LeafMismatch);
    }
    Ok(())
}
} // verus!
