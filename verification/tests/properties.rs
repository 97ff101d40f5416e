use calimero_store::gcounter::GCounter;
use calimero_store::hashing::Sha256Algorithm;
use calimero_store::keys::compare;
use calimero_store::keys::KeyOrder;
use calimero_store::merkle::create_merkle_tree;
use calimero_store::merkle::generate_proof;
use calimero_store::merkle::verify_proof;
use calimero_store::merkle::MerkleTree;
use calimero_store::merkle::Proof;
use calimero_store::merkle::ProofError;
use calimero_store::node::HierarchicalCRDT;
use calimero_store::node::Node;

fn path(names: &[&str]) -> Vec<String> {
    names.iter().map(|name| name.to_string()).collect()
}

fn sample_a() -> HierarchicalCRDT {
    let mut crdt = HierarchicalCRDT::new();
    crdt.increment(path(&[]), "r1".to_owned());
    crdt.increment(path(&["x"]), "r1".to_owned());
    crdt.increment(path(&["x"]), "r1".to_owned());
    crdt.increment(path(&["x", "y"]), "r2".to_owned());
    crdt
}

fn sample_b() -> HierarchicalCRDT {
    let mut crdt = HierarchicalCRDT::new();
    crdt.increment(path(&["x"]), "r1".to_owned());
    crdt.increment(path(&["x"]), "r3".to_owned());
    crdt.increment(path(&["z"]), "r2".to_owned());
    crdt
}

fn sample_c() -> HierarchicalCRDT {
    let mut crdt = HierarchicalCRDT::new();
    crdt.increment(path(&["x", "y", "w"]), "r4".to_owned());
    crdt.increment(path(&[]), "r1".to_owned());
    crdt.increment(path(&[]), "r1".to_owned());
    crdt
}

fn merged(mut left: HierarchicalCRDT, right: &HierarchicalCRDT) -> HierarchicalCRDT {
    left.merge(right);
    left
}

fn hex(bytes: &[u8]) -> String {
    bytes.iter().map(|byte| format!("{:02x}", byte)).collect()
}

#[test]
fn names_are_ordered_by_their_bytes() {
    assert_eq!(compare("a", "b"), KeyOrder::Before);
    assert_eq!(compare("b", "a"), KeyOrder::After);
    assert_eq!(compare("a", "a"), KeyOrder::Same);
    assert_eq!(compare("", "a"), KeyOrder::Before);
    assert_eq!(compare("a", "ab"), KeyOrder::Before);
    assert_eq!(compare("ab", "b"), KeyOrder::Before);
    assert_eq!(compare("Z", "a"), KeyOrder::Before);
    assert_eq!(compare("z", "é"), KeyOrder::Before);
    assert_eq!(compare("", ""), KeyOrder::Same);
}

#[test]
fn counter_counts_each_replica() {
    let mut counter = GCounter::new();
    assert_eq!(counter.value(), 0);
    assert_eq!(counter.get("node1"), 0);
    counter.increment("node2".to_owned());
    counter.increment("node1".to_owned());
    counter.increment("node2".to_owned());
    assert_eq!(counter.get("node1"), 1);
    assert_eq!(counter.get("node2"), 2);
    assert_eq!(counter.get("node3"), 0);
    assert_eq!(counter.value(), 3);
    assert_eq!(counter.len(), 2);
    assert_eq!(counter.entry(0), ("node1", 1));
    assert_eq!(counter.entry(1), ("node2", 2));
}

#[test]
fn counter_merge_takes_the_larger_count() {
    let mut a = GCounter::new();
    a.increment("x".to_owned());
    a.increment("x".to_owned());
    a.increment("y".to_owned());
    let mut b = GCounter::new();
    b.increment("x".to_owned());
    b.increment("y".to_owned());
    b.increment("y".to_owned());
    b.increment("y".to_owned());
    b.increment("z".to_owned());
    a.merge(&b);
    assert_eq!(a.get("x"), 2);
    assert_eq!(a.get("y"), 3);
    assert_eq!(a.get("z"), 1);
    assert_eq!(a.value(), 6);
}

#[test]
fn increment_twice_at_one_path_gives_two() {
    let mut crdt = HierarchicalCRDT::new();
    crdt.increment(path(&["parent", "child"]), "node1".to_owned());
    crdt.increment(path(&["parent", "child"]), "node1".to_owned());
    let child = crdt.root().child("parent").unwrap().child("child").unwrap();
    assert_eq!(child.crdt().value(), 2);
}

#[test]
fn increment_at_the_empty_path_counts_at_the_root() {
    let mut crdt = HierarchicalCRDT::new();
    crdt.increment(path(&[]), "node1".to_owned());
    assert_eq!(crdt.root().crdt().value(), 1);
    assert_eq!(crdt.root().child_count(), 0);
}

#[test]
fn increment_creates_the_nodes_on_the_way() {
    let mut crdt = HierarchicalCRDT::new();
    crdt.increment(path(&["a", "b", "c"]), "node1".to_owned());
    let a = crdt.root().child("a").unwrap();
    let b = a.child("b").unwrap();
    let c = b.child("c").unwrap();
    assert_eq!(a.crdt().value(), 0);
    assert_eq!(b.crdt().value(), 0);
    assert_eq!(c.crdt().value(), 1);
    assert!(crdt.root().child("b").is_none());
    assert_eq!(crdt.root().child_count(), 1);
    assert_eq!(crdt.root().child_name(0), "a");
}

#[test]
fn merge_is_commutative() {
    for (a, b) in [
        (sample_a(), sample_b()),
        (sample_b(), sample_c()),
        (sample_a(), sample_c()),
    ] {
        let ab = merged(merged(HierarchicalCRDT::new(), &a), &b);
        let ba = merged(merged(HierarchicalCRDT::new(), &b), &a);
        assert_eq!(ab, ba);
    }
}

#[test]
fn merge_is_idempotent() {
    for a in [sample_a(), sample_b(), sample_c(), HierarchicalCRDT::new()] {
        let copy = merged(HierarchicalCRDT::new(), &a);
        assert_eq!(copy, a);
        assert_eq!(merged(copy, &a), a);
    }
}

#[test]
fn merge_is_associative() {
    let (a, b, c) = (sample_a(), sample_b(), sample_c());
    let left = merged(merged(merged(HierarchicalCRDT::new(), &a), &b), &c);
    let bc = merged(merged(HierarchicalCRDT::new(), &b), &c);
    let right = merged(merged(HierarchicalCRDT::new(), &a), &bc);
    assert_eq!(left, right);
}

#[test]
fn merge_never_lowers_a_value() {
    let a = sample_a();
    let b = sample_b();
    let ab = merged(merged(HierarchicalCRDT::new(), &a), &b);
    let x_before = a.root().child("x").unwrap().crdt().value();
    let x_after = ab.root().child("x").unwrap().crdt().value();
    assert_eq!(x_before, 2);
    assert_eq!(x_after, 3);
    assert!(x_after >= x_before);
    assert!(ab.root().crdt().value() >= a.root().crdt().value());
    assert_eq!(ab.root().child("z").unwrap().crdt().value(), 1);
    assert_eq!(
        ab.root().child("x").unwrap().child("y").unwrap().crdt().value(),
        1
    );
}

#[test]
fn merge_of_two_replicas_at_one_path_gives_two() {
    let mut one = HierarchicalCRDT::new();
    one.increment(path(&["parent", "child"]), "node1".to_owned());
    let mut two = HierarchicalCRDT::new();
    two.increment(path(&["parent", "child"]), "node2".to_owned());
    one.merge(&two);
    let child = one.root().child("parent").unwrap().child("child").unwrap();
    assert_eq!(child.crdt().value(), 2);
}

#[test]
fn merge_with_a_new_counter_changes_nothing() {
    let a = sample_a();
    let same = merged(merged(HierarchicalCRDT::new(), &a), &HierarchicalCRDT::new());
    assert_eq!(same, a);
}

#[test]
fn the_order_of_increments_does_not_change_the_structure() {
    let mut one = HierarchicalCRDT::new();
    one.increment(path(&["b"]), "r2".to_owned());
    one.increment(path(&["a"]), "r1".to_owned());
    one.increment(path(&["b"]), "r1".to_owned());
    let mut two = HierarchicalCRDT::new();
    two.increment(path(&["a"]), "r1".to_owned());
    two.increment(path(&["b"]), "r1".to_owned());
    two.increment(path(&["b"]), "r2".to_owned());
    assert_eq!(one, two);
    assert_eq!(one.root().digest(), two.root().digest());
    assert_eq!(
        create_merkle_tree(one.root()).root(),
        create_merkle_tree(two.root()).root()
    );
}

#[test]
fn sha256_of_nothing_and_of_abc() {
    let mut state = Sha256Algorithm::default();
    assert_eq!(
        hex(&state.hash()),
        "e3b0c44298fc1c149afbf4c8996fb92427ae41e4649b934ca495991b7852b855"
    );
    state.write(b"a");
    state.write(b"bc");
    assert_eq!(
        hex(&state.hash()),
        "ba7816bf8f01cfea414140de5dae2223b00361a396177a9cb410ff61f20015ad"
    );
    state.reset();
    assert_eq!(
        hex(&state.hash()),
        "e3b0c44298fc1c149afbf4c8996fb92427ae41e4649b934ca495991b7852b855"
    );
}

#[test]
fn counter_digest_is_sha256_of_names_and_counts() {
    let mut counter = GCounter::new();
    counter.increment("b".to_owned());
    counter.increment("a".to_owned());
    counter.increment("a".to_owned());
    let mut expected = Sha256Algorithm::default();
    expected.write(b"a");
    expected.write(&2u64.to_le_bytes());
    expected.write(b"b");
    expected.write(&1u64.to_le_bytes());
    assert_eq!(counter.digest(), expected.hash());
}

#[test]
fn node_digest_follows_the_formula() {
    let mut crdt = HierarchicalCRDT::new();
    crdt.increment(path(&[]), "r".to_owned());
    crdt.increment(path(&["c"]), "s".to_owned());
    let root = crdt.root();
    let child = root.child("c").unwrap();

    let mut state = Sha256Algorithm::default();
    state.write(&child.crdt().digest());
    let child_hash = state.hash();
    assert_eq!(child.digest(), child_hash);

    let mut name = Sha256Algorithm::default();
    name.write(b"c");
    let mut state = Sha256Algorithm::default();
    state.write(&root.crdt().digest());
    state.write(&name.hash());
    state.write(&child_hash);
    assert_eq!(root.digest(), state.hash());
}

#[test]
fn leaf_and_node_hash_what_they_are_given() {
    let left = [1u8; 32];
    let right = [2u8; 32];
    let mut state = Sha256Algorithm::default();
    let mut plain = Sha256Algorithm::default();
    plain.write(&left);
    assert_eq!(state.leaf(left), plain.hash());
    plain.write(&right);
    assert_eq!(state.node(left, right), plain.hash());
}

#[test]
fn tree_of_a_node_with_two_children_has_three_leaves() {
    let mut crdt = HierarchicalCRDT::new();
    crdt.increment(path(&["parent", "child1"]), "node1".to_owned());
    crdt.increment(path(&["parent", "child2"]), "node2".to_owned());
    let parent = crdt.root().child("parent").unwrap();
    let tree = create_merkle_tree(parent);
    assert_eq!(tree.leafs(), 3);
    assert_eq!(tree.leaf(0), Some(parent.crdt().digest()));
    assert_eq!(tree.leaf(1), Some(parent.child("child1").unwrap().digest()));
    assert_eq!(tree.leaf(2), Some(parent.child("child2").unwrap().digest()));
    assert_eq!(tree.leaf(3), None);
    for index in 0..3 {
        let proof = generate_proof(&tree, index).unwrap();
        assert_eq!(Some(proof.item()), tree.leaf(index));
        assert_eq!(proof.root(), tree.root());
        assert_eq!(proof.path_len(), 2);
        assert!(proof.validate());
        assert_eq!(verify_proof(&proof, &tree.root(), &proof.item()), Ok(()));
    }
    assert_eq!(generate_proof(&tree, 3).err(), Some(ProofError::InvalidIndex));
}

#[test]
fn tree_of_three_leaves_pairs_the_last_with_itself() {
    let leaves = vec![[1u8; 32], [2u8; 32], [3u8; 32]];
    let tree = MerkleTree::from_leaves(leaves.clone()).unwrap();
    let mut state = Sha256Algorithm::default();
    let left = state.node(leaves[0], leaves[1]);
    let right = state.node(leaves[2], leaves[2]);
    assert_eq!(tree.root(), state.node(left, right));
}

#[test]
fn tree_of_one_leaf_has_the_leaf_as_root() {
    let node = Node::new();
    let tree = create_merkle_tree(&node);
    assert_eq!(tree.leafs(), 1);
    assert_eq!(tree.root(), node.crdt().digest());
    let proof = generate_proof(&tree, 0).unwrap();
    assert_eq!(proof.path_len(), 0);
    assert_eq!(verify_proof(&proof, &tree.root(), &proof.item()), Ok(()));
    assert_eq!(generate_proof(&tree, 1).err(), Some(ProofError::InvalidIndex));
}

#[test]
fn there_is_no_tree_without_leaves() {
    assert!(MerkleTree::from_leaves(Vec::new()).is_none());
}

#[test]
fn proofs_hold_in_trees_of_every_small_size() {
    for count in 1..20u8 {
        let leaves: Vec<[u8; 32]> = (0..count).map(|i| [i; 32]).collect();
        let tree = MerkleTree::from_leaves(leaves.clone()).unwrap();
        assert_eq!(tree.leafs(), count as usize);
        for index in 0..count as usize {
            let proof = generate_proof(&tree, index).unwrap();
            assert_eq!(proof.item(), leaves[index]);
            assert_eq!(verify_proof(&proof, &tree.root(), &leaves[index]), Ok(()));
        }
        assert_eq!(
            generate_proof(&tree, count as usize).err(),
            Some(ProofError::InvalidIndex)
        );
    }
}

#[test]
fn a_changed_root_is_a_root_mismatch() {
    let tree = create_merkle_tree(sample_a().root());
    let proof = generate_proof(&tree, 1).unwrap();
    let mut root = tree.root();
    root[7] ^= 1;
    assert_eq!(
        verify_proof(&proof, &root, &proof.item()),
        Err(ProofError::RootMismatch)
    );
}

#[test]
fn another_leaf_is_a_leaf_mismatch() {
    let tree = create_merkle_tree(sample_a().root());
    let proof = generate_proof(&tree, 1).unwrap();
    let other = tree.leaf(0).unwrap();
    assert_ne!(other, proof.item());
    assert_eq!(
        verify_proof(&proof, &tree.root(), &other),
        Err(ProofError::LeafMismatch)
    );
}

#[test]
fn a_path_that_does_not_lead_to_the_root_is_an_invalid_path() {
    let tree = create_merkle_tree(sample_a().root());
    let proof = generate_proof(&tree, 0).unwrap();
    let broken = Proof::new(proof.item(), proof.root(), vec![([9u8; 32], false)]);
    assert!(!broken.validate());
    assert_eq!(
        verify_proof(&broken, &tree.root(), &proof.item()),
        Err(ProofError::InvalidPath)
    );
    // The path is checked first: a wrong root and leaf do not hide it.
    assert_eq!(
        verify_proof(&broken, &[0u8; 32], &[0u8; 32]),
        Err(ProofError::InvalidPath)
    );
}

#[test]
fn a_root_mismatch_is_reported_before_a_leaf_mismatch() {
    let tree = create_merkle_tree(sample_a().root());
    let proof = generate_proof(&tree, 0).unwrap();
    assert_eq!(
        verify_proof(&proof, &[0u8; 32], &[0u8; 32]),
        Err(ProofError::RootMismatch)
    );
}

#[test]
fn a_copy_holds_the_same_tree() {
    let a = sample_a();
    let copy = a.clone();
    assert_eq!(copy, a);
    let mut changed = a.clone();
    changed.increment(path(&["x"]), "r1".to_owned());
    assert_ne!(changed, a);
    assert_eq!(a.root().child("x").unwrap().crdt().value(), 2);
    assert_eq!(changed.root().child("x").unwrap().crdt().value(), 3);
    let counter = a.root().crdt().clone();
    assert_eq!(&counter, a.root().crdt());
}

#[test]
fn value_at_sums_the_counts_at_a_path() {
    let a = sample_a();
    assert_eq!(a.value_at(&path(&[])), 1);
    assert_eq!(a.value_at(&path(&["x"])), 2);
    assert_eq!(a.value_at(&path(&["x", "y"])), 1);
    assert_eq!(a.value_at(&path(&["x", "z"])), 0);
    assert_eq!(a.value_at(&path(&["nowhere", "at", "all"])), 0);
    assert_eq!(HierarchicalCRDT::new().value_at(&path(&[])), 0);
}

#[test]
fn increment_raises_the_value_at_its_path_by_one_and_no_other() {
    let mut crdt = sample_a();
    let paths = [
        path(&[]),
        path(&["x"]),
        path(&["x", "y"]),
        path(&["x", "new"]),
        path(&["z"]),
    ];
    for target in &paths {
        let before: Vec<u64> = paths.iter().map(|p| crdt.value_at(p)).collect();
        crdt.increment(target.clone(), "r9".to_owned());
        for (p, old) in paths.iter().zip(before) {
            let new = crdt.value_at(p);
            if p == target {
                assert_eq!(new, old + 1);
            } else {
                assert_eq!(new, old);
            }
        }
    }
}

#[test]
fn merge_never_lowers_the_value_at_any_path() {
    let paths = [
        path(&[]),
        path(&["x"]),
        path(&["x", "y"]),
        path(&["x", "y", "w"]),
        path(&["z"]),
    ];
    for (a, b) in [
        (sample_a(), sample_b()),
        (sample_b(), sample_c()),
        (sample_c(), sample_a()),
    ] {
        let ab = merged(a.clone(), &b);
        for p in &paths {
            assert!(ab.value_at(p) >= a.value_at(p));
            assert!(ab.value_at(p) >= b.value_at(p));
            assert!(ab.value_at(p) <= a.value_at(p) + b.value_at(p));
        }
    }
    let ab = merged(sample_a(), &sample_b());
    assert_eq!(ab.value_at(&path(&["x"])), 3);
}
