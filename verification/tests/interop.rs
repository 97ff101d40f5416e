use std::hash::Hasher;

use calimero_store::hashing::Sha256Algorithm;
use calimero_store::merkle::MerkleTree;
use merkletree::hash::Algorithm;
use merkletree::store::VecStore;

/// SHA-256 over pairs of hashes, with leaves taken as they are.
#[derive(Default, Clone)]
struct PairHash(Vec<u8>);

impl Hasher for PairHash {
    fn finish(&self) -> u64 {
        0
    }

    fn write(&mut self, bytes: &[u8]) {
        self.0.extend_from_slice(bytes);
    }
}

impl Algorithm<[u8; 32]> for PairHash {
    fn hash(&mut self) -> [u8; 32] {
        let mut state = Sha256Algorithm::default();
        state.write(&self.0);
        state.hash()
    }

    fn reset(&mut self) {
        self.0.clear();
    }

    fn leaf(&mut self, leaf: [u8; 32]) -> [u8; 32] {
        leaf
    }

    fn node(&mut self, left: [u8; 32], right: [u8; 32], _height: usize) -> [u8; 32] {
        Sha256Algorithm::default().node(left, right)
    }

    fn multi_node(&mut self, nodes: &[[u8; 32]], _height: usize) -> [u8; 32] {
        let mut state = Sha256Algorithm::default();
        for node in nodes {
            state.write(node);
        }
        state.hash()
    }
}

fn leaves(count: u8) -> Vec<[u8; 32]> {
    (0..count)
        .map(|i| {
            let mut leaf = [i; 32];
            leaf[0] = i.wrapping_mul(37);
            leaf
        })
        .collect()
}

#[test]
fn roots_agree_with_merkletree_where_it_builds_a_tree() {
    for count in [2u8, 4, 8, 16, 32] {
        let leaves = leaves(count);
        let ours = MerkleTree::from_leaves(leaves.clone()).unwrap();
        let theirs =
            merkletree::merkle::MerkleTree::<[u8; 32], PairHash, VecStore<[u8; 32]>>::new(
                leaves,
            )
            .unwrap();
        assert_eq!(ours.leafs(), theirs.leafs());
        assert_eq!(ours.root(), theirs.root());
    }
}

#[test]
fn proofs_agree_with_merkletree_where_it_builds_a_tree() {
    for count in [2u8, 4, 8, 16] {
        let leaves = leaves(count);
        let ours = MerkleTree::from_leaves(leaves.clone()).unwrap();
        let theirs =
            merkletree::merkle::MerkleTree::<[u8; 32], PairHash, VecStore<[u8; 32]>>::new(
                leaves,
            )
            .unwrap();
        for index in 0..count as usize {
            let proof = ours.gen_proof(index).unwrap();
            let other = theirs.gen_proof(index).unwrap();
            assert_eq!(proof.item(), other.item());
            assert_eq!(proof.root(), other.root());
            assert!(other.validate::<PairHash>().unwrap());
            let lemma = other.lemma();
            let sides = other.path();
            assert_eq!(proof.path_len(), sides.len());
            assert_eq!(lemma.len(), sides.len() + 2);
            for place in 0..proof.path_len() {
                let (sibling, left) = proof.step(place);
                assert_eq!(sibling, lemma[place + 1]);
                assert_eq!(left, sides[place] == 1);
            }
        }
    }
}

#[test]
fn merkletree_builds_no_tree_of_one_or_three_leaves() {
    for count in [1u8, 3, 5, 6, 7] {
        let built = merkletree::merkle::MerkleTree::<[u8; 32], PairHash, VecStore<[u8; 32]>>::new(
            leaves(count),
        );
        assert!(built.is_err());
        assert!(MerkleTree::from_leaves(leaves(count)).is_some());
    }
}
