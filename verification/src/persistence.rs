//! What is computed when a hierarchical counter is stored under a key of
//! a key-value engine and loaded from it.
//!
//! The engine itself is not here. To store a counter, the caller puts
//! the bytes that [`store_hierarchical_crdt`] gives under the key; to
//! load one, the caller gets what is under the key and hands it to
//! [`load_hierarchical_crdt`]. The whole counter is one value of the
//! engine.
use crate::codec::decode;
use crate::codec::decoded;
use crate::codec::encode;
use crate::codec::lemma_decoded;
use crate::codec::node_bytes;
use crate::codec::shape_fits;
use crate::node::HierarchicalCRDT;
use vstd::prelude::*;

verus! {
/// Why a counter could not be stored or loaded.
#[derive(Clone, Copy, Debug, PartialEq, Eq)]
pub enum StoreError {
    /// The bytes under the key are not the encoding of a hierarchical
    /// counter.
    Corrupt,
    /// The counter has a counter with more entries, a node with more
    /// children, or a name with more bytes than the encoding can count.
    TooLarge,
}

/// What [`load_hierarchical_crdt`] answers to what the engine found
/// under the key.
pub open spec fn loaded(found: Option<Seq<u8>>) -> Result<Option<crate::node::Shape>, StoreError> {
    match found {
        None => Ok(None),
        Some(bytes) => match decoded(bytes) {
            Some(shape) => Ok(Some(shape)),
            None => Err(StoreError::Corrupt),
        },
    }
}

/// The bytes to put under the key of a counter: its encoding. A counter
/// too large to encode is refused with `TooLarge`.
pub fn store_hierarchical_crdt(crdt: &HierarchicalCRDT) -> (out: Result<Vec<u8>, StoreError>)
    requires
        crdt.wf(),
    ensures
        out is Ok <==> shape_fits(crdt.shape()),
        out matches Ok(bytes) ==> bytes@ == node_bytes(crdt.shape()),
        out matches Err(e) ==> e == StoreError::TooLarge,
{
    match encode(crdt) {
        Some(bytes) => Ok(bytes),
        None => Err(StoreError::TooLarge),
    }
}

/// The counter that the engine found under a key. Where it found
/// nothing, there is no counter, which is no error. Where it found
/// bytes, they are decoded, and bytes that are the encoding of no
/// counter are refused with `Corrupt`.
pub fn load_hierarchical_crdt(found: Option<Vec<u8>>) -> (out: Result<
    Option<HierarchicalCRDT>,
    StoreError,
>)
    ensures
        match (out, loaded(
            match found {
                Some(bytes) => Some(bytes@),
                None => None,
            },
        )) {
            (Ok(None), Ok(None)) => true,
            (Ok(Some(crdt)), Ok(Some(shape))) => crdt.wf() && crdt.shape() == shape,
            (Err(e), Err(expected)) => e == expected,
            _ => false,
        },
{
    match found {
        None => Ok(None),
        Some(bytes) => match decode(bytes.as_slice()) {
            Ok(crdt) => Ok(Some(crdt)),
            Err(_) => Err(StoreError::Corrupt),
        },
    }
}

/// Round trip: what is loaded from the bytes that were stored for a
/// counter is that counter. Loading them succeeds and finds a counter,
/// and every well-formed counter of the layout found holds the same tree
/// as the one stored.
pub proof fn lemma_round_trip(stored: &HierarchicalCRDT, restored: &HierarchicalCRDT)
    requires
        stored.wf(),
        shape_fits(stored.shape()),
        restored.wf(),
        loaded(Some(node_bytes(stored.shape()))) == Ok::<Option<crate::node::Shape>, StoreError>(
            Some(restored.shape()),
        ),
    ensures
        restored@ == stored@,
        restored.shape() == stored.shape(),
{
    stored.lemma_shape_sorted();
    lemma_decoded(node_bytes(stored.shape()), stored.shape());
    stored.lemma_shape_determined(restored);
}

/// Loading what was stored for a counter succeeds and finds its layout.
pub proof fn lemma_stored_loads(stored: &HierarchicalCRDT)
    requires
        stored.wf(),
        shape_fits(stored.shape()),
    ensures
        loaded(Some(node_bytes(stored.shape()))) == Ok::<Option<crate::node::Shape>, StoreError>(
            Some(stored.shape()),
        ),
{
    stored.lemma_shape_sorted();
    lemma_decoded(node_bytes(stored.shape()), stored.shape());
}
} // verus!
