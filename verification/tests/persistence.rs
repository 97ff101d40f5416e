use std::collections::HashMap;

use borsh::BorshSerialize;
use calimero_store::codec::decode;
use calimero_store::codec::encode;
use calimero_store::codec::DecodeError;
use calimero_store::merkle::create_merkle_tree;
use calimero_store::merkle::generate_proof;
use calimero_store::merkle::verify_proof;
use calimero_store::node::HierarchicalCRDT;
use calimero_store::persistence::load_hierarchical_crdt;
use calimero_store::persistence::store_hierarchical_crdt;
use calimero_store::persistence::StoreError;

/// A key-value engine kept in memory.
struct MemoryDb {
    values: HashMap<Vec<u8>, Vec<u8>>,
}

impl MemoryDb {
    fn open() -> Self {
        MemoryDb {
            values: HashMap::new(),
        }
    }

    fn put(&mut self, key: &[u8], value: Vec<u8>) {
        self.values.insert(key.to_vec(), value);
    }

    fn get(&self, key: &[u8]) -> Option<Vec<u8>> {
        self.values.get(key).cloned()
    }

    fn store_hierarchical_crdt(
        &mut self,
        key: &[u8],
        crdt: &HierarchicalCRDT,
    ) -> Result<(), StoreError> {
        let serialized = store_hierarchical_crdt(crdt)?;
        self.put(key, serialized);
        Ok(())
    }

    fn load_hierarchical_crdt(&self, key: &[u8]) -> Result<Option<HierarchicalCRDT>, StoreError> {
        load_hierarchical_crdt(self.get(key))
    }
}

/// The same tree as the standard library and Borsh see it.
struct PlainNode {
    crdt: HashMap<String, u64>,
    children: HashMap<String, PlainNode>,
}

impl BorshSerialize for PlainNode {
    fn serialize<W: borsh::io::Write>(&self, writer: &mut W) -> borsh::io::Result<()> {
        self.crdt.serialize(writer)?;
        self.children.serialize(writer)
    }
}

fn plain(counts: &[(&str, u64)], children: Vec<(&str, PlainNode)>) -> PlainNode {
    PlainNode {
        crdt: counts
            .iter()
            .map(|(name, count)| (name.to_string(), *count))
            .collect(),
        children: children
            .into_iter()
            .map(|(name, child)| (name.to_string(), child))
            .collect(),
    }
}

#[test]
fn test_store_and_load_hierarchical_crdt() {
    let mut db = MemoryDb::open();

    let mut crdt = HierarchicalCRDT::new();
    crdt.increment(
        vec!["parent".to_owned(), "child".to_owned()],
        "node1".to_owned(),
    );

    db.store_hierarchical_crdt(b"crdt_key", &crdt)
        .expect("Failed to store CRDT");

    let loaded_crdt = db
        .load_hierarchical_crdt(b"crdt_key")
        .expect("Failed to load CRDT")
        .expect("CRDT not found");
    assert_eq!(crdt, loaded_crdt);
}

#[test]
fn test_store_and_load_and_verify_hierarchical_crdt() {
    let mut db = MemoryDb::open();

    let mut crdt = HierarchicalCRDT::new();
    crdt.increment(
        vec!["parent".to_owned(), "child".to_owned()],
        "node1".to_owned(),
    );

    db.store_hierarchical_crdt(b"crdt_key", &crdt)
        .expect("Failed to store CRDT");

    let loaded_crdt = db
        .load_hierarchical_crdt(b"crdt_key")
        .expect("Failed to load CRDT")
        .expect("CRDT not found");
    assert_eq!(crdt, loaded_crdt);

    let merkle_tree = create_merkle_tree(crdt.root());
    let proof = generate_proof(&merkle_tree, 0).expect("Failed to generate proof");

    let root_hash = merkle_tree.root();
    let leaf_hash = proof.item();
    let is_valid = verify_proof(&proof, &root_hash, &leaf_hash);
    assert!(is_valid.is_ok());
}

#[test]
fn test_load_non_existent_crdt() {
    let db = MemoryDb::open();

    let result = db.load_hierarchical_crdt(b"non_existent_key");
    assert!(result.is_ok());
    assert!(result.unwrap().is_none());
}

#[test]
fn store_overwrites_what_was_under_the_key() {
    let mut db = MemoryDb::open();
    let mut crdt = HierarchicalCRDT::new();
    crdt.increment(vec!["a".to_owned()], "node1".to_owned());
    db.store_hierarchical_crdt(b"key", &crdt).unwrap();
    crdt.increment(vec!["a".to_owned()], "node1".to_owned());
    db.store_hierarchical_crdt(b"key", &crdt).unwrap();
    let loaded = db.load_hierarchical_crdt(b"key").unwrap().unwrap();
    assert_eq!(loaded.root().child("a").unwrap().crdt().value(), 2);
}

#[test]
fn empty_counter_encodes_to_two_zero_lengths() {
    let crdt = HierarchicalCRDT::new();
    assert_eq!(encode(&crdt), Some(vec![0, 0, 0, 0, 0, 0, 0, 0]));
}

#[test]
fn encoding_has_the_exact_bytes() {
    let mut crdt = HierarchicalCRDT::new();
    crdt.increment(vec![], "r".to_owned());
    crdt.increment(vec!["c".to_owned()], "s".to_owned());
    crdt.increment(vec!["c".to_owned()], "s".to_owned());
    let expected: Vec<u8> = vec![
        1, 0, 0, 0, // one entry in the root counter
        1, 0, 0, 0, b'r', // its replica
        1, 0, 0, 0, 0, 0, 0, 0, // its count
        1, 0, 0, 0, // one child
        1, 0, 0, 0, b'c', // its name
        1, 0, 0, 0, // one entry in the child's counter
        1, 0, 0, 0, b's', // its replica
        2, 0, 0, 0, 0, 0, 0, 0, // its count
        0, 0, 0, 0, // no children
    ];
    assert_eq!(encode(&crdt), Some(expected));
}

#[test]
fn encoding_is_what_borsh_writes_for_hash_maps() {
    let mut crdt = HierarchicalCRDT::new();
    crdt.increment(vec![], "zeta".to_owned());
    crdt.increment(vec![], "alpha".to_owned());
    crdt.increment(vec!["parent".to_owned(), "child2".to_owned()], "node2".to_owned());
    crdt.increment(vec!["parent".to_owned(), "child1".to_owned()], "node1".to_owned());
    crdt.increment(vec!["parent".to_owned(), "child1".to_owned()], "node1".to_owned());
    crdt.increment(vec!["other".to_owned()], "node3".to_owned());

    let mirror = plain(
        &[("alpha", 1), ("zeta", 1)],
        vec![
            (
                "parent",
                plain(
                    &[],
                    vec![
                        ("child1", plain(&[("node1", 2)], vec![])),
                        ("child2", plain(&[("node2", 1)], vec![])),
                    ],
                ),
            ),
            ("other", plain(&[("node3", 1)], vec![])),
        ],
    );
    assert_eq!(encode(&crdt), Some(borsh::to_vec(&mirror).unwrap()));
}

#[test]
fn decode_inverts_encode() {
    let mut crdt = HierarchicalCRDT::new();
    crdt.increment(vec![], "root".to_owned());
    crdt.increment(vec!["a".to_owned(), "b".to_owned()], "x".to_owned());
    crdt.increment(vec!["a".to_owned(), "c".to_owned()], "y".to_owned());
    crdt.increment(vec!["é".to_owned()], "ü".to_owned());
    let bytes = encode(&crdt).unwrap();
    let back = decode(&bytes).unwrap();
    assert_eq!(back, crdt);
    assert_eq!(encode(&back), Some(bytes));
}

#[test]
fn decode_refuses_bytes_that_end_early() {
    let mut crdt = HierarchicalCRDT::new();
    crdt.increment(vec!["a".to_owned()], "x".to_owned());
    let bytes = encode(&crdt).unwrap();
    for cut in 0..bytes.len() {
        assert_eq!(decode(&bytes[..cut]).err(), Some(DecodeError::Corrupt));
    }
}

#[test]
fn decode_refuses_bytes_left_over() {
    let crdt = HierarchicalCRDT::new();
    let mut bytes = encode(&crdt).unwrap();
    bytes.push(0);
    assert_eq!(decode(&bytes).err(), Some(DecodeError::Corrupt));
}

#[test]
fn decode_refuses_names_out_of_order() {
    // Two entries of the root counter, "b" before "a".
    let bytes: Vec<u8> = vec![
        2, 0, 0, 0, //
        1, 0, 0, 0, b'b', 1, 0, 0, 0, 0, 0, 0, 0, //
        1, 0, 0, 0, b'a', 1, 0, 0, 0, 0, 0, 0, 0, //
        0, 0, 0, 0,
    ];
    assert_eq!(decode(&bytes).err(), Some(DecodeError::Corrupt));
    // The same name twice.
    let bytes: Vec<u8> = vec![
        2, 0, 0, 0, //
        1, 0, 0, 0, b'a', 1, 0, 0, 0, 0, 0, 0, 0, //
        1, 0, 0, 0, b'a', 1, 0, 0, 0, 0, 0, 0, 0, //
        0, 0, 0, 0,
    ];
    assert_eq!(decode(&bytes).err(), Some(DecodeError::Corrupt));
}

#[test]
fn decode_refuses_names_that_are_not_utf8() {
    let bytes: Vec<u8> = vec![
        1, 0, 0, 0, //
        1, 0, 0, 0, 0xff, 1, 0, 0, 0, 0, 0, 0, 0, //
        0, 0, 0, 0,
    ];
    assert_eq!(decode(&bytes).err(), Some(DecodeError::Corrupt));
}

#[test]
fn decode_reads_counts_least_significant_byte_first() {
    let bytes: Vec<u8> = vec![
        1, 0, 0, 0, //
        1, 0, 0, 0, b'a', 0x01, 0x02, 0, 0, 0, 0, 0, 0, //
        0, 0, 0, 0,
    ];
    let crdt = decode(&bytes).unwrap();
    assert_eq!(crdt.root().crdt().get("a"), 0x0201);
}

#[test]
fn load_refuses_corrupt_bytes() {
    let result = load_hierarchical_crdt(Some(vec![1, 2, 3]));
    assert_eq!(result.err(), Some(StoreError::Corrupt));
}
