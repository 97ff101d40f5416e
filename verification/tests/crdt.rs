use calimero_store::gcounter::GCounter;
use calimero_store::merkle::create_merkle_tree;
use calimero_store::merkle::generate_proof;
use calimero_store::merkle::verify_proof;
use calimero_store::node::HierarchicalCRDT;
use calimero_store::node::Node;

#[test]
fn test_gcounter_increment() {
    let mut counter = GCounter::new();
    counter.increment("node1".to_owned());
    counter.increment("node1".to_owned());
    assert_eq!(counter.value(), 2);
}

#[test]
fn test_gcounter_merge() {
    let mut counter1 = GCounter::new();
    counter1.increment("node1".to_owned());

    let mut counter2 = GCounter::new();
    counter2.increment("node1".to_owned());
    counter2.increment("node2".to_owned());

    counter1.merge(&counter2);

    assert_eq!(counter1.value(), 2);
}

#[test]
fn test_node_new() {
    let node = Node::new();
    assert_eq!(node.crdt().value(), 0);
    assert!(node.child_count() == 0);
}

#[test]
fn test_hierarchical_crdt_increment() {
    let mut crdt = HierarchicalCRDT::new();
    crdt.increment(
        vec!["parent".to_owned(), "child".to_owned()],
        "node1".to_owned(),
    );
    assert_eq!(
        crdt.root()
            .child("parent")
            .unwrap()
            .child("child")
            .unwrap()
            .crdt()
            .value(),
        1
    );
}

#[test]
fn test_hierarchical_crdt_merge() {
    let mut crdt1 = HierarchicalCRDT::new();
    crdt1.increment(
        vec!["parent".to_owned(), "child".to_owned()],
        "node1".to_owned(),
    );

    let mut crdt2 = HierarchicalCRDT::new();
    crdt2.increment(
        vec!["parent".to_owned(), "child".to_owned()],
        "node2".to_owned(),
    );

    crdt1.merge(&crdt2);

    let merged_child = crdt1
        .root()
        .child("parent")
        .unwrap()
        .child("child")
        .unwrap();
    assert_eq!(merged_child.crdt().value(), 2);
}

#[test]
fn test_create_merkle_tree() {
    let mut crdt = HierarchicalCRDT::new();
    crdt.increment(
        vec!["parent".to_owned(), "child".to_owned()],
        "node1".to_owned(),
    );
    let merkle_tree = create_merkle_tree(crdt.root());
    assert_eq!(merkle_tree.leafs(), 2);
}

#[test]
fn test_generate_and_verify_proof() {
    let mut crdt = HierarchicalCRDT::new();
    crdt.increment(
        vec!["parent".to_owned(), "child".to_owned()],
        "node1".to_owned(),
    );
    let merkle_tree = create_merkle_tree(crdt.root());
    let proof = generate_proof(&merkle_tree, 0).expect("Failed to generate proof");
    let root_hash = merkle_tree.root();
    let leaf_hash = proof.item();
    assert!(verify_proof(&proof, &root_hash, &leaf_hash).is_ok());
}

#[test]
fn test_merge_with_empty_crdt() {
    let mut crdt1 = HierarchicalCRDT::new();
    crdt1.increment(
        vec!["parent".to_owned(), "child".to_owned()],
        "node1".to_owned(),
    );

    let crdt2 = HierarchicalCRDT::new();

    crdt1.merge(&crdt2);
    assert_eq!(
        crdt1
            .root()
            .child("parent")
            .unwrap()
            .child("child")
            .unwrap()
            .crdt()
            .value(),
        1
    );

    let mut crdt3 = HierarchicalCRDT::new();
    let crdt4 = HierarchicalCRDT::new();
    crdt3.increment(
        vec!["parent".to_owned(), "child".to_owned()],
        "node2".to_owned(),
    );

    crdt3.merge(&crdt4);
    assert_eq!(
        crdt3
            .root()
            .child("parent")
            .unwrap()
            .child("child")
            .unwrap()
            .crdt()
            .value(),
        1
    );
}

#[test]
fn test_generate_and_verify_proof_different_indices() {
    let mut crdt = HierarchicalCRDT::new();
    crdt.increment(
        vec!["parent".to_owned(), "child1".to_owned()],
        "node1".to_owned(),
    );
    crdt.increment(
        vec!["parent".to_owned(), "child2".to_owned()],
        "node2".to_owned(),
    );
    let merkle_tree = create_merkle_tree(crdt.root());

    for i in 0..merkle_tree.leafs() {
        let proof = generate_proof(&merkle_tree, i).expect("Failed to generate proof");
        let root_hash = merkle_tree.root();
        let leaf_hash = proof.item();
        assert!(verify_proof(&proof, &root_hash, &leaf_hash).is_ok());
    }
}

#[test]
fn test_increment_different_paths_and_levels() {
    let mut crdt = HierarchicalCRDT::new();
    crdt.increment(vec!["level1".to_owned()], "node1".to_owned());
    crdt.increment(
        vec!["level1".to_owned(), "level2".to_owned()],
        "node2".to_owned(),
    );
    crdt.increment(
        vec![
            "level1".to_owned(),
            "level2".to_owned(),
            "level3".to_owned(),
        ],
        "node3".to_owned(),
    );

    assert_eq!(crdt.root().child("level1").unwrap().crdt().value(), 1);
    assert_eq!(
        crdt.root()
            .child("level1")
            .unwrap()
            .child("level2")
            .unwrap()
            .crdt()
            .value(),
        1
    );
    assert_eq!(
        crdt.root()
            .child("level1")
            .unwrap()
            .child("level2")
            .unwrap()
            .child("level3")
            .unwrap()
            .crdt()
            .value(),
        1
    );
}

#[test]
fn test_generate_proof_invalid_index() {
    let mut crdt = HierarchicalCRDT::new();
    crdt.increment(
        vec!["parent".to_owned(), "child".to_owned()],
        "node1".to_owned(),
    );
    let merkle_tree = create_merkle_tree(crdt.root());

    let result = generate_proof(&merkle_tree, merkle_tree.leafs() + 1);
    assert!(result.is_err());
}
