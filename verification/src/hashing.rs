//! The hash of a node: SHA-256 over the entries of its counter and, child
//! by child in ascending order of names, over the hash of each subtree.
//!
//! SHA-256 itself is not defined here. It is computed by the `sha2` crate
//! and enters the contracts under the name [`sha256`].
use crate::gcounter::GCounter;
use crate::node::Node;
use crate::node::Shape;
use sha2::Digest;
use vstd::bytes::spec_u64_to_le_bytes;
use vstd::bytes::u64_to_le_bytes;
use vstd::prelude::*;
use vstd::utf8::encode_utf8;

verus! {
/// The SHA-256 digest of a byte string, as the `sha2` crate computes it.
pub uninterp spec fn sha256(data: Seq<u8>) -> Seq<u8>;

/// Calls `sha2::Sha256::digest` on the bytes and hands back the 32 bytes of
/// the digest. The contract claims only that this is the digest named
/// [`sha256`]: for the same bytes always the same.
#[verifier::external_body]
pub(crate) fn digest(data: &[u8]) -> (out: [u8; 32])
    ensures
        out@ == sha256(data@),
{
    sha2::Sha256::digest(data).into()
}

/// The bytes of a counter: entry by entry in ascending order of the
/// replicas' names, the UTF-8 bytes of the name and then the count as
/// eight bytes, least significant first.
pub open spec fn counter_bytes(counts: Seq<(Seq<char>, u64)>) -> Seq<u8>
    decreases counts.len(),
{
    if counts.len() == 0 {
        Seq::<u8>::empty()
    } else {
        counter_bytes(counts.drop_last()) + encode_utf8(counts.last().0) + spec_u64_to_le_bytes(
            counts.last().1,
        )
    }
}

/// The hash of a node: the digest of the digest of its counter's bytes,
/// followed by what is hashed for its children.
pub open spec fn node_hash(shape: Shape) -> Seq<u8>
    decreases shape,
{
    sha256(sha256(counter_bytes(shape.counts)) + children_stream(shape.children))
}

/// What is hashed for the children of a node: child by child in ascending
/// order of names, the digest of the name's UTF-8 bytes and then the hash
/// of the child.
pub open spec fn children_stream(children: Seq<(Seq<char>, Shape)>) -> Seq<u8>
    decreases children,
{
    if children.len() == 0 {
        Seq::<u8>::empty()
    } else {
        children_stream(children.drop_last()) + sha256(encode_utf8(children.last().0))
            + node_hash(children.last().1)
    }
}

/// What is hashed for a node: the digest of the bytes of its counter, and
/// then what is hashed for its children.
pub open spec fn node_stream(shape: Shape) -> Seq<u8> {
    sha256(counter_bytes(shape.counts)) + children_stream(shape.children)
}

/// The leaves that a node gives to its Merkle tree: the digest of the
/// bytes of its own counter, and then the hash of each child, in ascending
/// order of the children's names.
pub open spec fn leaf_hashes(shape: Shape) -> Seq<Seq<u8>> {
    seq![sha256(counter_bytes(shape.counts))] + Seq::new(
        shape.children.len(),
        |i: int| node_hash(shape.children[i].1),
    )
}

/// A running SHA-256 computation: bytes are written to it piece by piece,
/// and the digest of all that was written can be taken at any time.
pub struct Sha256Algorithm {
    written: Vec<u8>,
}

impl View for Sha256Algorithm {
    type V = Seq<u8>;

    /// The bytes written since the last reset.
    closed spec fn view(&self) -> Seq<u8> {
        self.written@
    }
}

impl Default for Sha256Algorithm {
    /// A computation to which nothing has been written.
    fn default() -> (state: Self)
        ensures
            state@ == Seq::<u8>::empty(),
    {
        Sha256Algorithm { written: Vec::new() }
    }
}

impl Sha256Algorithm {
    /// Writes more bytes behind those already written.
    pub fn write(&mut self, bytes: &[u8])
        ensures
            final(self)@ == old(self)@ + bytes@,
    {
        self.written.extend_from_slice(bytes);
    }

    /// The digest of the bytes written so far. More can be written
    /// afterwards.
    pub fn hash(&self) -> (out: [u8; 32])
        ensures
            out@ == sha256(self@),
    {
        digest(self.written.as_slice())
    }

    /// Forgets what was written.
    pub fn reset(&mut self)
        ensures
            final(self)@ == Seq::<u8>::empty(),
    {
        self.written.clear();
    }

    /// The digest of one hash alone, whatever was written before.
    pub fn leaf(&mut self, leaf: [u8; 32]) -> (out: [u8; 32])
        ensures
            out@ == sha256(leaf@),
            final(self)@ == leaf@,
    {
        self.reset();
        self.write(leaf.as_slice());
        self.hash()
    }

    /// The digest of two hashes, the left one first, whatever was written
    /// before.
    pub fn node(&mut self, left: [u8; 32], right: [u8; 32]) -> (out: [u8; 32])
        ensures
            out@ == sha256(left@ + right@),
            final(self)@ == left@ + right@,
    {
        self.reset();
        self.write(left.as_slice());
        self.write(right.as_slice());
        self.hash()
    }
}

impl GCounter {
    /// Writes the bytes of the counter to a running hash computation.
    pub fn hash(&self, state: &mut Sha256Algorithm)
        ensures
            final(state)@ == old(state)@ + counter_bytes(self.entries()),
    {
        let n = self.len();
        let mut i: usize = 0;
        while i < n
            invariant
                i <= n,
                n == self.entries().len(),
                state@ == old(state)@ + counter_bytes(self.entries().take(i as int)),
            decreases n - i,
        {
            let (name, count) = self.entry(i);
            state.write(name.as_bytes());
            let le = u64_to_le_bytes(count);
            state.write(le.as_slice());
            proof {
                let next = self.entries().take(i + 1);
                assert(next.drop_last() =~= self.entries().take(i as int));
            }
            i = i + 1;
        }
        assert(self.entries().take(n as int) =~= self.entries());
    }

    /// The digest of the bytes of the counter.
    pub fn digest(&self) -> (out: [u8; 32])
        ensures
            out@ == sha256(counter_bytes(self.entries())),
    {
        let mut state = Sha256Algorithm::default();
        self.hash(&mut state);
        state.hash()
    }
}

impl Node {
    /// Writes what is hashed for the node to a running hash computation:
    /// the digest of its counter's bytes, and for each child the digest of
    /// its name and the hash of its subtree.
    pub fn hash(&self, state: &mut Sha256Algorithm)
        requires
            self.wf(),
        ensures
            final(state)@ == old(state)@ + node_stream(self.shape()),
        decreases self.shape(), 0nat,
    {
        let own = self.crdt().digest();
        state.write(own.as_slice());
        let n = self.child_count();
        let mut i: usize = 0;
        let ghost children = self.shape().children;
        while i < n
            invariant
                i <= n,
                self.wf(),
                children == self.shape().children,
                n == children.len(),
                own@ == sha256(counter_bytes(self.shape().counts)),
                state@ == old(state)@ + own@ + children_stream(children.take(i as int)),
            decreases n - i,
        {
            let name = digest(self.child_name(i).as_bytes());
            state.write(name.as_slice());
            let below = self.child_at(i).digest();
            state.write(below.as_slice());
            proof {
                let next = children.take(i + 1);
                assert(next.drop_last() =~= children.take(i as int));
            }
            i = i + 1;
        }
        assert(children.take(n as int) =~= children);
    }

    /// The hash of the node: of its own counter and of the whole tree
    /// below it.
    pub fn digest(&self) -> (out: [u8; 32])
        requires
            self.wf(),
        ensures
            out@ == node_hash(self.shape()),
        decreases self.shape(), 1nat,
    {
        let mut state = Sha256Algorithm::default();
        self.hash(&mut state);
        state.hash()
    }
}

/// The hash does not depend on how a tree was built: two well-formed
/// nodes that hold the same tree have the same hash and the same leaves.
pub proof fn lemma_hash_determined(a: &Node, b: &Node)
    requires
        a.wf(),
        b.wf(),
        a@ == b@,
    ensures
        node_hash(a.shape()) == node_hash(b.shape()),
        leaf_hashes(a.shape()) == leaf_hashes(b.shape()),
{
    a.lemma_shape_determined(b);
}
} // verus!
