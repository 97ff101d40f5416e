//! The bytes of a hierarchical counter for durable storage, and the way
//! back from bytes to the counter.
//!
//! The layout is that of Borsh. A number is written least significant byte
//! first: a count in eight bytes, a length in four. A name is the length
//! of its UTF-8 bytes and then those bytes. A counter is the number of its
//! entries and then the entries in ascending order of the replicas' names,
//! each as the name and the count. A node is its counter, the number of
//! its children, and the children in ascending order of their names, each
//! as the name and the node. A hierarchical counter is its root node.
//!
//! Reading accepts exactly what writing produces: one encoding for each
//! counter, and nothing before, between or behind its parts.
//!
//! Numbers and names are written and read by the `borsh` crate; what it
//! writes and accepts is stated in the contracts of the wrappers below.
use crate::gcounter::GCounter;
use crate::keys::ascending;
use crate::keys::key_lt;
use crate::node::HierarchicalCRDT;
use crate::node::Node;
use crate::node::Shape;
use vstd::bytes::lemma_auto_spec_u32_to_from_le_bytes;
use vstd::bytes::lemma_auto_spec_u64_to_from_le_bytes;
use vstd::bytes::spec_u32_from_le_bytes;
use vstd::bytes::spec_u32_to_le_bytes;
use vstd::bytes::spec_u64_from_le_bytes;
use vstd::bytes::spec_u64_to_le_bytes;
use vstd::prelude::*;
use vstd::utf8::decode_utf8;
use vstd::utf8::decode_utf8_encode_utf8;
use vstd::utf8::encode_utf8;
use vstd::utf8::encode_utf8_decode_utf8;
use vstd::utf8::encode_utf8_valid_utf8;
use vstd::utf8::valid_utf8;

verus! {
/// Writes a length: `borsh::to_vec` on a `u32`, which gives its four
/// bytes, least significant first, and does not fail.
#[verifier::external_body]
pub(crate) fn write_u32(value: u32) -> (out: Option<Vec<u8>>)
    ensures
        out is Some,
        out matches Some(bytes) ==> bytes@ == spec_u32_to_le_bytes(value),
{
    borsh::to_vec(&value).ok()
}

/// Writes a count: `borsh::to_vec` on a `u64`, which gives its eight
/// bytes, least significant first, and does not fail.
#[verifier::external_body]
fn write_u64(value: u64) -> (out: Option<Vec<u8>>)
    ensures
        out is Some,
        out matches Some(bytes) ==> bytes@ == spec_u64_to_le_bytes(value),
{
    borsh::to_vec(&value).ok()
}

/// Writes a name: `borsh::to_vec` on a `str`, which gives the length of
/// its UTF-8 bytes in four bytes and then those bytes, and fails only for
/// a name of more bytes than four bytes can count.
#[verifier::external_body]
pub(crate) fn write_name(name: &str) -> (out: Option<Vec<u8>>)
    ensures
        out is Some <==> name_ok(name@),
        out matches Some(bytes) ==> bytes@ == name_bytes(name@),
{
    borsh::to_vec(name).ok()
}

/// Reads a length at `pos`: `u32::deserialize` of Borsh on the bytes from
/// `pos` on, which takes four bytes, least significant first, and fails
/// only where fewer are left.
#[verifier::external_body]
fn read_u32(buf: &[u8], pos: usize) -> (out: Option<u32>)
    requires
        pos <= buf@.len(),
    ensures
        out == parse_u32(buf@.skip(pos as int)),
{
    let mut rest = &buf[pos..];
    <u32 as borsh::BorshDeserialize>::deserialize(&mut rest).ok()
}

/// Reads a count at `pos`: `u64::deserialize` of Borsh on the bytes from
/// `pos` on, which takes eight bytes, least significant first, and fails
/// only where fewer are left.
#[verifier::external_body]
fn read_u64(buf: &[u8], pos: usize) -> (out: Option<u64>)
    requires
        pos <= buf@.len(),
    ensures
        out == parse_u64(buf@.skip(pos as int)),
{
    let mut rest = &buf[pos..];
    <u64 as borsh::BorshDeserialize>::deserialize(&mut rest).ok()
}

/// Reads a name at `pos`: `String::deserialize` of Borsh on the bytes
/// from `pos` on, which takes a length in four bytes and then as many
/// bytes as the length says, and fails where fewer are left or where
/// those bytes are not UTF-8.
#[verifier::external_body]
fn read_name(buf: &[u8], pos: usize) -> (out: Option<String>)
    requires
        pos <= buf@.len(),
    ensures
        out is Some <==> parse_name(buf@.skip(pos as int)) is Some,
        out matches Some(name) ==> Some(name@) == parse_name(buf@.skip(pos as int)),
{
    let mut rest = &buf[pos..];
    <String as borsh::BorshDeserialize>::deserialize(&mut rest).ok()
}

/// The UTF-8 bytes of the name are few enough for four bytes to count.
pub open spec fn name_ok(name: Seq<char>) -> bool {
    encode_utf8(name).len() <= u32::MAX
}

/// The bytes of a name: the length of its UTF-8 bytes, then those bytes.
pub open spec fn name_bytes(name: Seq<char>) -> Seq<u8> {
    spec_u32_to_le_bytes(encode_utf8(name).len() as u32) + encode_utf8(name)
}

/// The length that the bytes start with, where they are at least four.
pub open spec fn parse_u32(b: Seq<u8>) -> Option<u32> {
    if b.len() >= 4 {
        Some(spec_u32_from_le_bytes(b.take(4)))
    } else {
        None
    }
}

/// The count that the bytes start with, where they are at least eight.
pub open spec fn parse_u64(b: Seq<u8>) -> Option<u64> {
    if b.len() >= 8 {
        Some(spec_u64_from_le_bytes(b.take(8)))
    } else {
        None
    }
}

/// The name that the bytes start with, where they start with one.
pub open spec fn parse_name(b: Seq<u8>) -> Option<Seq<char>> {
    match parse_u32(b) {
        Some(len) => if b.len() >= 4 + len && valid_utf8(b.subrange(4, 4 + len)) {
            Some(decode_utf8(b.subrange(4, 4 + len)))
        } else {
            None
        },
        None => None,
    }
}

/// A length is read back from its bytes, whatever follows them.
pub proof fn lemma_parse_u32(value: u32, rest: Seq<u8>)
    ensures
        spec_u32_to_le_bytes(value).len() == 4,
        parse_u32(spec_u32_to_le_bytes(value) + rest) == Some(value),
{
    lemma_auto_spec_u32_to_from_le_bytes();
    assert((spec_u32_to_le_bytes(value) + rest).take(4) =~= spec_u32_to_le_bytes(value));
}

/// A count is read back from its bytes, whatever follows them.
pub proof fn lemma_parse_u64(value: u64, rest: Seq<u8>)
    ensures
        spec_u64_to_le_bytes(value).len() == 8,
        parse_u64(spec_u64_to_le_bytes(value) + rest) == Some(value),
{
    lemma_auto_spec_u64_to_from_le_bytes();
    assert((spec_u64_to_le_bytes(value) + rest).take(8) =~= spec_u64_to_le_bytes(value));
}

/// A name is read back from its bytes, whatever follows them.
pub proof fn lemma_parse_name(name: Seq<char>, rest: Seq<u8>)
    requires
        name_ok(name),
    ensures
        name_bytes(name).len() == 4 + encode_utf8(name).len(),
        parse_name(name_bytes(name) + rest) == Some(name),
{
    let utf8 = encode_utf8(name);
    let len = utf8.len() as u32;
    let b = name_bytes(name) + rest;
    lemma_auto_spec_u32_to_from_le_bytes();
    assert(b.take(4) =~= spec_u32_to_le_bytes(len));
    assert(b.subrange(4, 4 + len) =~= utf8);
    encode_utf8_valid_utf8(name);
    encode_utf8_decode_utf8(name);
}

/// Bytes that a name is read from start with the bytes of that name.
pub proof fn lemma_name_parsed(b: Seq<u8>)
    requires
        parse_name(b) is Some,
    ensures
        name_ok(parse_name(b).unwrap()),
        name_bytes(parse_name(b).unwrap()).len() <= b.len(),
        name_bytes(parse_name(b).unwrap()) == b.take(name_bytes(parse_name(b).unwrap()).len() as int),
{
    let len = parse_u32(b).unwrap();
    let utf8 = b.subrange(4, 4 + len);
    let name = decode_utf8(utf8);
    decode_utf8_encode_utf8(utf8);
    lemma_auto_spec_u32_to_from_le_bytes();
    assert(spec_u32_to_le_bytes(len) == b.take(4));
    assert(name_bytes(name) =~= b.take(4 + len));
}

/// The bytes of the entries of a counter: entry by entry, the name and
/// then the count.
pub open spec fn entries_bytes(counts: Seq<(Seq<char>, u64)>) -> Seq<u8>
    decreases counts.len(),
{
    if counts.len() == 0 {
        Seq::<u8>::empty()
    } else {
        name_bytes(counts[0].0) + spec_u64_to_le_bytes(counts[0].1) + entries_bytes(
            counts.drop_first(),
        )
    }
}

/// The bytes of a node: the number of entries of its counter, the
/// entries, the number of its children, and the children.
pub open spec fn node_bytes(shape: Shape) -> Seq<u8>
    decreases shape,
{
    spec_u32_to_le_bytes(shape.counts.len() as u32) + entries_bytes(shape.counts)
        + spec_u32_to_le_bytes(shape.children.len() as u32) + children_bytes(shape.children)
}

/// The bytes of the children of a node: child by child, the name and then
/// the node.
pub open spec fn children_bytes(children: Seq<(Seq<char>, Shape)>) -> Seq<u8>
    decreases children,
{
    if children.len() == 0 {
        Seq::<u8>::empty()
    } else {
        name_bytes(children[0].0) + node_bytes(children[0].1) + children_bytes(
            children.drop_first(),
        )
    }
}

/// Every name of the entries can be written.
pub open spec fn entries_fit(counts: Seq<(Seq<char>, u64)>) -> bool {
    forall|i: int| 0 <= i < counts.len() ==> name_ok((#[trigger] counts[i]).0)
}

/// The layout can be written: at every node, four bytes can count the
/// entries, the children, and the bytes of each name.
pub open spec fn shape_fits(shape: Shape) -> bool
    decreases shape,
{
    &&& shape.counts.len() <= u32::MAX
    &&& shape.children.len() <= u32::MAX
    &&& entries_fit(shape.counts)
    &&& forall|i: int|
        0 <= i < shape.children.len() ==> name_ok((#[trigger] shape.children[i]).0)
            && shape_fits(shape.children[i].1)
}

/// The bytes of entries listed one after the other are the bytes of the
/// first list followed by those of the second.
pub proof fn lemma_entries_bytes_concat(a: Seq<(Seq<char>, u64)>, b: Seq<(Seq<char>, u64)>)
    ensures
        entries_bytes(a + b) == entries_bytes(a) + entries_bytes(b),
    decreases a.len(),
{
    if a.len() == 0 {
        assert(a + b =~= b);
    } else {
        lemma_entries_bytes_concat(a.drop_first(), b);
        assert((a + b).drop_first() =~= a.drop_first() + b);
        assert(entries_bytes(a + b) =~= entries_bytes(a) + entries_bytes(b));
    }
}

/// The bytes of children listed one after the other are the bytes of the
/// first list followed by those of the second.
pub proof fn lemma_children_bytes_concat(
    a: Seq<(Seq<char>, Shape)>,
    b: Seq<(Seq<char>, Shape)>,
)
    ensures
        children_bytes(a + b) == children_bytes(a) + children_bytes(b),
    decreases a.len(),
{
    if a.len() == 0 {
        assert(a + b =~= b);
    } else {
        lemma_children_bytes_concat(a.drop_first(), b);
        assert((a + b).drop_first() =~= a.drop_first() + b);
        assert(children_bytes(a + b) =~= children_bytes(a) + children_bytes(b));
    }
}

/// Writes the entries of a counter behind `out`. The answer is whether
/// all could be written; where not, `out` is left with a part of them.
fn encode_counter(counter: &GCounter, out: &mut Vec<u8>) -> (done: bool)
    ensures
        done == (counter.entries().len() <= u32::MAX && entries_fit(counter.entries())),
        done ==> final(out)@ == old(out)@ + spec_u32_to_le_bytes(counter.entries().len() as u32)
            + entries_bytes(counter.entries()),
{
    let n = counter.len();
    if n > u32::MAX as usize {
        return false;
    }
    let ghost counts = counter.entries();
    let ghost start = out@;
    let head = write_u32(n as u32);
    match head {
        Some(bytes) => out.extend_from_slice(bytes.as_slice()),
        None => {
            return false;
        },
    }
    let mut i: usize = 0;
    assert(counts.take(0) =~= Seq::<(Seq<char>, u64)>::empty());
    assert(out@ =~= start + spec_u32_to_le_bytes(n as u32) + entries_bytes(counts.take(0)));
    while i < n
        invariant
            i <= n,
            counts == counter.entries(),
            n == counts.len(),
            entries_fit(counts.take(i as int)),
            out@ == start + spec_u32_to_le_bytes(n as u32) + entries_bytes(counts.take(i as int)),
        decreases n - i,
    {
        let (name, count) = counter.entry(i);
        let ghost before = out@;
        match write_name(name) {
            Some(bytes) => out.extend_from_slice(bytes.as_slice()),
            None => {
                assert(!name_ok(counts[i as int].0));
                return false;
            },
        }
        match write_u64(count) {
            Some(bytes) => out.extend_from_slice(bytes.as_slice()),
            None => {
                return false;
            },
        }
        proof {
            let one = seq![counts[i as int]];
            assert(counts.take(i + 1) =~= counts.take(i as int) + one);
            lemma_entries_bytes_concat(counts.take(i as int), one);
            assert(one.drop_first() =~= Seq::<(Seq<char>, u64)>::empty());
            assert(entries_bytes(one.drop_first()) =~= Seq::<u8>::empty());
            assert(entries_bytes(one) =~= name_bytes(counts[i as int].0) + spec_u64_to_le_bytes(
                counts[i as int].1,
            ));
            assert(out@ =~= start + spec_u32_to_le_bytes(n as u32) + entries_bytes(
                counts.take(i + 1),
            ));
            assert forall|k: int| 0 <= k < i + 1 implies name_ok(
                (#[trigger] counts.take(i + 1)[k]).0,
            ) by {
                if k < i {
                    assert(counts.take(i as int)[k] == counts[k]);
                }
            }
        }
        i = i + 1;
    }
    assert(counts.take(n as int) =~= counts);
    true
}

/// Writes a node behind `out`. The answer is whether all of it could be
/// written; where not, `out` is left with a part of it.
fn encode_node(node: &Node, out: &mut Vec<u8>) -> (done: bool)
    requires
        node.wf(),
    ensures
        done == shape_fits(node.shape()),
        done ==> final(out)@ == old(out)@ + node_bytes(node.shape()),
    decreases node.shape(),
{
    let ghost shape = node.shape();
    let ghost start = out@;
    if !encode_counter(node.crdt(), out) {
        return false;
    }
    let n = node.child_count();
    if n > u32::MAX as usize {
        return false;
    }
    match write_u32(n as u32) {
        Some(bytes) => out.extend_from_slice(bytes.as_slice()),
        None => {
            return false;
        },
    }
    let ghost head = start + spec_u32_to_le_bytes(shape.counts.len() as u32) + entries_bytes(
        shape.counts,
    ) + spec_u32_to_le_bytes(n as u32);
    let mut i: usize = 0;
    assert(shape.children.take(0) =~= Seq::<(Seq<char>, Shape)>::empty());
    assert(out@ =~= head + children_bytes(shape.children.take(0)));
    while i < n
        invariant
            i <= n,
            node.wf(),
            shape == node.shape(),
            n == shape.children.len(),
            forall|k: int|
                0 <= k < i ==> name_ok((#[trigger] shape.children[k]).0) && shape_fits(
                    shape.children[k].1,
                ),
            out@ == head + children_bytes(shape.children.take(i as int)),
        decreases n - i,
    {
        match write_name(node.child_name(i)) {
            Some(bytes) => out.extend_from_slice(bytes.as_slice()),
            None => {
                assert(!name_ok(shape.children[i as int].0));
                return false;
            },
        }
        if !encode_node(node.child_at(i), out) {
            assert(!shape_fits(shape.children[i as int].1));
            return false;
        }
        proof {
            let one = seq![shape.children[i as int]];
            assert(shape.children.take(i + 1) =~= shape.children.take(i as int) + one);
            lemma_children_bytes_concat(shape.children.take(i as int), one);
            assert(one.drop_first() =~= Seq::<(Seq<char>, Shape)>::empty());
            assert(children_bytes(one.drop_first()) =~= Seq::<u8>::empty());
            assert(children_bytes(one) =~= name_bytes(shape.children[i as int].0) + node_bytes(
                shape.children[i as int].1,
            ));
            assert(out@ =~= head + children_bytes(shape.children.take(i + 1)));
        }
        i = i + 1;
    }
    assert(shape.children.take(n as int) =~= shape.children);
    true
}

/// The number of bytes that a name takes.
pub open spec fn name_len(name: Seq<char>) -> int {
    4 + encode_utf8(name).len() as int
}

/// The name may follow the one before it: it comes after it, or there is
/// none before it.
pub open spec fn follows(prev: Option<Seq<char>>, name: Seq<char>) -> bool {
    match prev {
        Some(p) => key_lt(p, name),
        None => true,
    }
}

/// The name of the last entry read, where one has been read.
pub open spec fn last_name<V>(read: Seq<(Seq<char>, V)>) -> Option<Seq<char>> {
    if read.len() == 0 {
        None
    } else {
        Some(read.last().0)
    }
}

/// What has been read with what is read from the rest: the two lists one
/// after the other, and the bytes taken for both.
pub open spec fn glue<V>(
    read: Seq<(Seq<char>, V)>,
    taken: int,
    rest: Option<(Seq<(Seq<char>, V)>, int)>,
) -> Option<(Seq<(Seq<char>, V)>, int)> {
    match rest {
        Some((more, n)) => Some((read + more, taken + n)),
        None => None,
    }
}

/// Reads `count` entries of a counter from the start of the bytes, each
/// name after the one before it: the entries and the number of bytes
/// taken, or `None` where the bytes do not start with such entries.
pub open spec fn parse_entries(b: Seq<u8>, count: nat, prev: Option<Seq<char>>) -> Option<
    (Seq<(Seq<char>, u64)>, int),
>
    decreases count,
{
    if count == 0 {
        Some((Seq::<(Seq<char>, u64)>::empty(), 0))
    } else {
        match parse_name(b) {
            Some(name) => {
                let n = name_len(name);
                if !follows(prev, name) || n > b.len() {
                    None
                } else {
                    match parse_u64(b.skip(n)) {
                        Some(value) => glue(
                            seq![(name, value)],
                            n + 8,
                            parse_entries(b.skip(n + 8), (count - 1) as nat, Some(name)),
                        ),
                        None => None,
                    }
                }
            },
            None => None,
        }
    }
}

/// Reads a node from the start of the bytes: its layout and the number of
/// bytes taken, or `None` where the bytes do not start with a node.
pub open spec fn parse_node(b: Seq<u8>) -> Option<(Shape, int)>
    decreases b.len(), 0nat,
{
    match parse_u32(b) {
        Some(count) => match parse_entries(b.skip(4), count as nat, None) {
            Some((counts, n)) => if n < 0 || 4 + n > b.len() {
                None
            } else {
                match parse_u32(b.skip(4 + n)) {
                    Some(number) => match parse_children(b.skip(8 + n), number as nat, None) {
                        Some((children, m)) => Some(
                            (Shape { counts, children }, 8 + n + m),
                        ),
                        None => None,
                    },
                    None => None,
                }
            },
            None => None,
        },
        None => None,
    }
}

/// Reads `count` children of a node from the start of the bytes, each
/// name after the one before it: the children and the number of bytes
/// taken, or `None` where the bytes do not start with such children.
pub open spec fn parse_children(b: Seq<u8>, count: nat, prev: Option<Seq<char>>) -> Option<
    (Seq<(Seq<char>, Shape)>, int),
>
    decreases b.len(), count,
{
    if count == 0 {
        Some((Seq::<(Seq<char>, Shape)>::empty(), 0))
    } else {
        match parse_name(b) {
            Some(name) => {
                let n = name_len(name);
                if !follows(prev, name) || n > b.len() {
                    None
                } else {
                    match parse_node(b.skip(n)) {
                        Some((shape, m)) => if m < 0 || n + m > b.len() {
                            None
                        } else {
                            glue(
                                seq![(name, shape)],
                                n + m,
                                parse_children(b.skip(n + m), (count - 1) as nat, Some(name)),
                            )
                        },
                        None => None,
                    }
                }
            },
            None => None,
        }
    }
}

/// The layout that the bytes are the encoding of, where they are the
/// encoding of one: a node is read from their start and takes them all.
pub open spec fn decoded(b: Seq<u8>) -> Option<Shape> {
    match parse_node(b) {
        Some((shape, n)) => if n == b.len() {
            Some(shape)
        } else {
            None
        },
        None => None,
    }
}

/// A list that ascends by name still does with an entry put before it
/// whose name comes before the first.
proof fn lemma_ascending_cons<V>(head: (Seq<char>, V), tail: Seq<(Seq<char>, V)>)
    requires
        ascending(tail),
        tail.len() > 0 ==> key_lt(head.0, tail[0].0),
    ensures
        ascending(seq![head] + tail),
{
    let all = seq![head] + tail;
    assert forall|i: int, j: int| 0 <= i < j < all.len() implies key_lt(
        #[trigger] all[i].0,
        #[trigger] all[j].0,
    ) by {
        if i == 0 {
            if j > 1 {
                assert(key_lt(tail[0].0, tail[j - 1].0));
                crate::keys::lemma_key_lt_transitive(head.0, tail[0].0, tail[j - 1].0);
            }
        } else {
            assert(key_lt(tail[i - 1].0, tail[j - 1].0));
        }
    }
}

/// Entries are read back from their bytes, whatever follows them.
pub proof fn lemma_parse_entries_of(
    counts: Seq<(Seq<char>, u64)>,
    rest: Seq<u8>,
    prev: Option<Seq<char>>,
)
    requires
        ascending(counts),
        entries_fit(counts),
        counts.len() > 0 ==> follows(prev, counts[0].0),
    ensures
        parse_entries(entries_bytes(counts) + rest, counts.len(), prev) == Some(
            (counts, entries_bytes(counts).len() as int),
        ),
    decreases counts.len(),
{
    if counts.len() > 0 {
        let name = counts[0].0;
        let value = counts[0].1;
        let tail = counts.drop_first();
        let b = entries_bytes(counts) + rest;
        let after_name = spec_u64_to_le_bytes(value) + (entries_bytes(tail) + rest);
        let after_value = entries_bytes(tail) + rest;
        assert(b =~= name_bytes(name) + after_name);
        lemma_parse_name(name, after_name);
        assert(b.skip(name_len(name)) =~= after_name);
        lemma_parse_u64(value, after_value);
        assert(b.skip(name_len(name) + 8) =~= after_value);
        assert(ascending(tail)) by {
            assert forall|i: int, j: int| 0 <= i < j < tail.len() implies key_lt(
                #[trigger] tail[i].0,
                #[trigger] tail[j].0,
            ) by {
                assert(key_lt(counts[i + 1].0, counts[j + 1].0));
            }
        }
        assert(entries_fit(tail)) by {
            assert forall|i: int| 0 <= i < tail.len() implies name_ok((#[trigger] tail[i]).0) by {
                assert(tail[i] == counts[i + 1]);
            }
        }
        if tail.len() > 0 {
            assert(key_lt(counts[0].0, counts[1].0));
        }
        lemma_parse_entries_of(tail, rest, Some(name));
        assert(seq![(name, value)] + tail =~= counts);
    } else {
        assert(entries_bytes(counts) =~= Seq::<u8>::empty());
    }
}

/// A node is read back from its bytes, whatever follows them.
pub proof fn lemma_parse_node_of(shape: Shape, rest: Seq<u8>)
    requires
        crate::node::shape_sorted(shape),
        shape_fits(shape),
    ensures
        parse_node(node_bytes(shape) + rest) == Some((shape, node_bytes(shape).len() as int)),
    decreases shape, shape.children.len() + 1,
{
    let count = shape.counts.len() as u32;
    let number = shape.children.len() as u32;
    let b = node_bytes(shape) + rest;
    let after_count = entries_bytes(shape.counts) + (spec_u32_to_le_bytes(number) + (
    children_bytes(shape.children) + rest));
    let after_entries = spec_u32_to_le_bytes(number) + (children_bytes(shape.children) + rest);
    let after_number = children_bytes(shape.children) + rest;
    assert(b =~= spec_u32_to_le_bytes(count) + after_count);
    lemma_parse_u32(count, after_count);
    assert(b.skip(4) =~= after_count);
    lemma_parse_entries_of(shape.counts, after_entries, None);
    let n = entries_bytes(shape.counts).len() as int;
    assert(b.skip(4 + n) =~= after_entries);
    lemma_parse_u32(number, after_number);
    assert(b.skip(8 + n) =~= after_number);
    lemma_parse_children_of(shape.children, rest, None, shape);
    let parsed = parse_node(b);
    assert(parsed matches Some((got, taken)) && got.counts == shape.counts && got.children
        == shape.children);
}

/// Children are read back from their bytes, whatever follows them.
pub proof fn lemma_parse_children_of(
    children: Seq<(Seq<char>, Shape)>,
    rest: Seq<u8>,
    prev: Option<Seq<char>>,
    parent: Shape,
)
    requires
        ascending(children),
        forall|i: int|
            0 <= i < children.len() ==> name_ok((#[trigger] children[i]).0)
                && crate::node::shape_sorted(children[i].1) && shape_fits(children[i].1),
        children.len() > 0 ==> follows(prev, children[0].0),
        forall|i: int| 0 <= i < children.len() ==> decreases_to!(parent => (#[trigger] children[i]).1),
    ensures
        parse_children(children_bytes(children) + rest, children.len(), prev) == Some(
            (children, children_bytes(children).len() as int),
        ),
    decreases parent, children.len(),
{
    if children.len() > 0 {
        let name = children[0].0;
        let shape = children[0].1;
        let tail = children.drop_first();
        let b = children_bytes(children) + rest;
        let after_name = node_bytes(shape) + (children_bytes(tail) + rest);
        let after_node = children_bytes(tail) + rest;
        assert(b =~= name_bytes(name) + after_name);
        lemma_parse_name(name, after_name);
        assert(b.skip(name_len(name)) =~= after_name);
        lemma_parse_node_of(shape, after_node);
        let m = node_bytes(shape).len() as int;
        assert(b.skip(name_len(name) + m) =~= after_node);
        assert(ascending(tail)) by {
            assert forall|i: int, j: int| 0 <= i < j < tail.len() implies key_lt(
                #[trigger] tail[i].0,
                #[trigger] tail[j].0,
            ) by {
                assert(key_lt(children[i + 1].0, children[j + 1].0));
            }
        }
        assert forall|i: int| 0 <= i < tail.len() implies name_ok((#[trigger] tail[i]).0)
            && crate::node::shape_sorted(tail[i].1) && shape_fits(tail[i].1) && decreases_to!(parent => tail[i].1) by {
            assert(tail[i] == children[i + 1]);
        }
        if tail.len() > 0 {
            assert(key_lt(children[0].0, children[1].0));
        }
        lemma_parse_children_of(tail, rest, Some(name), parent);
        assert(seq![(name, shape)] + tail =~= children);
    } else {
        assert(children_bytes(children) =~= Seq::<u8>::empty());
    }
}

/// Bytes that entries are read from start with the bytes of those
/// entries, which ascend by name and can be written.
pub proof fn lemma_entries_parsed(b: Seq<u8>, count: nat, prev: Option<Seq<char>>)
    requires
        parse_entries(b, count, prev) is Some,
    ensures
        ({
            let (counts, n) = parse_entries(b, count, prev).unwrap();
            &&& counts.len() == count
            &&& ascending(counts)
            &&& entries_fit(counts)
            &&& counts.len() > 0 ==> follows(prev, counts[0].0)
            &&& 0 <= n <= b.len()
            &&& entries_bytes(counts) == b.take(n)
        }),
    decreases count,
{
    let (counts, n) = parse_entries(b, count, prev).unwrap();
    if count == 0 {
        assert(entries_bytes(counts) =~= b.take(0));
    } else {
        let name = parse_name(b).unwrap();
        let k = name_len(name);
        let value = parse_u64(b.skip(k)).unwrap();
        let (tail, m) = parse_entries(b.skip(k + 8), (count - 1) as nat, Some(name)).unwrap();
        lemma_name_parsed(b);
        lemma_auto_spec_u32_to_from_le_bytes();
        lemma_auto_spec_u64_to_from_le_bytes();
        lemma_entries_parsed(b.skip(k + 8), (count - 1) as nat, Some(name));
        assert(counts =~= seq![(name, value)] + tail);
        lemma_ascending_cons((name, value), tail);
        assert(counts.drop_first() =~= tail);
        assert(spec_u64_to_le_bytes(value) == b.skip(k).take(8));
        assert(entries_bytes(counts) =~= b.take(n));
        assert forall|i: int| 0 <= i < counts.len() implies name_ok((#[trigger] counts[i]).0) by {
            if i > 0 {
                assert(counts[i] == tail[i - 1]);
            }
        }
    }
}

/// Bytes that a node is read from start with the bytes of that node,
/// which ascends by name at every node and can be written.
pub proof fn lemma_node_parsed(b: Seq<u8>)
    requires
        parse_node(b) is Some,
    ensures
        ({
            let (shape, n) = parse_node(b).unwrap();
            &&& crate::node::shape_sorted(shape)
            &&& shape_fits(shape)
            &&& 0 <= n <= b.len()
            &&& node_bytes(shape) == b.take(n)
        }),
    decreases b.len(), 0nat,
{
    let (shape, total) = parse_node(b).unwrap();
    let count = parse_u32(b).unwrap();
    let (counts, n) = parse_entries(b.skip(4), count as nat, None).unwrap();
    let number = parse_u32(b.skip(4 + n)).unwrap();
    let (children, m) = parse_children(b.skip(8 + n), number as nat, None).unwrap();
    lemma_auto_spec_u32_to_from_le_bytes();
    lemma_entries_parsed(b.skip(4), count as nat, None);
    lemma_children_parsed(b.skip(8 + n), number as nat, None);
    assert(spec_u32_to_le_bytes(count) == b.take(4));
    assert(spec_u32_to_le_bytes(number) == b.skip(4 + n).take(4));
    assert(node_bytes(shape) =~= b.take(total));
}

/// Bytes that children are read from start with the bytes of those
/// children, which ascend by name and can be written.
pub proof fn lemma_children_parsed(b: Seq<u8>, count: nat, prev: Option<Seq<char>>)
    requires
        parse_children(b, count, prev) is Some,
    ensures
        ({
            let (children, n) = parse_children(b, count, prev).unwrap();
            &&& children.len() == count
            &&& ascending(children)
            &&& forall|i: int|
                0 <= i < children.len() ==> name_ok((#[trigger] children[i]).0)
                    && crate::node::shape_sorted(children[i].1) && shape_fits(children[i].1)
            &&& children.len() > 0 ==> follows(prev, children[0].0)
            &&& 0 <= n <= b.len()
            &&& children_bytes(children) == b.take(n)
        }),
    decreases b.len(), count,
{
    let (children, n) = parse_children(b, count, prev).unwrap();
    if count == 0 {
        assert(children_bytes(children) =~= b.take(0));
    } else {
        let name = parse_name(b).unwrap();
        let k = name_len(name);
        let (shape, m) = parse_node(b.skip(k)).unwrap();
        let (tail, r) = parse_children(b.skip(k + m), (count - 1) as nat, Some(name)).unwrap();
        lemma_name_parsed(b);
        lemma_auto_spec_u32_to_from_le_bytes();
        lemma_node_parsed(b.skip(k));
        lemma_children_parsed(b.skip(k + m), (count - 1) as nat, Some(name));
        assert(children =~= seq![(name, shape)] + tail);
        lemma_ascending_cons((name, shape), tail);
        assert(children.drop_first() =~= tail);
        assert(children_bytes(children) =~= b.take(n));
        assert forall|i: int| 0 <= i < children.len() implies name_ok((#[trigger] children[i]).0)
            && crate::node::shape_sorted(children[i].1) && shape_fits(children[i].1) by {
            if i > 0 {
                assert(children[i] == tail[i - 1]);
            }
        }
    }
}

/// The bytes read as the encoding of a layout are the bytes of that
/// layout, and the bytes of a layout that ascends by name and can be
/// written are read as the encoding of it: one encoding for each layout,
/// and one layout for each encoding.
pub proof fn lemma_decoded(b: Seq<u8>, shape: Shape)
    ensures
        decoded(b) == Some(shape) <==> crate::node::shape_sorted(shape) && shape_fits(shape)
            && node_bytes(shape) == b,
{
    if decoded(b) == Some(shape) {
        lemma_node_parsed(b);
        assert(b.take(b.len() as int) =~= b);
    }
    if crate::node::shape_sorted(shape) && shape_fits(shape) && node_bytes(shape) == b {
        lemma_parse_node_of(shape, Seq::<u8>::empty());
        assert(node_bytes(shape) + Seq::<u8>::empty() =~= b);
    }
}

/// Reads a counter at `pos`: the counter and the place behind it, or
/// `None` where the bytes from `pos` on do not start with a counter.
fn decode_counter(buf: &[u8], pos: usize) -> (out: Option<(GCounter, usize)>)
    requires
        pos <= buf@.len(),
    ensures
        match out {
            Some((counter, next)) => {
                &&& counter.wf()
                &&& pos + 4 <= next <= buf@.len()
                &&& parse_u32(buf@.skip(pos as int)) matches Some(count)
                &&& parse_entries(buf@.skip(pos + 4), count as nat, None) == Some(
                    (counter.entries(), next - pos - 4),
                )
            },
            None => parse_u32(buf@.skip(pos as int)) matches Some(count) ==> parse_entries(
                buf@.skip(pos + 4),
                count as nat,
                None,
            ) is None,
        },
{
    let ghost b = buf@;
    let len = buf.len();
    assert(b.skip(pos as int).len() == b.len() - pos);
    let count = match read_u32(buf, pos) {
        Some(count) => count,
        None => {
            return None;
        },
    };
    let start: usize = pos + 4;
    let mut counter = GCounter::new();
    let mut cur: usize = start;
    let mut i: u32 = 0;
    let ghost whole = parse_entries(b.skip(start as int), count as nat, None);
    proof {
        assert(counter.entries() =~= Seq::<(Seq<char>, u64)>::empty());
        match whole {
            Some((more, n)) => {
                assert(counter.entries() + more =~= more);
            },
            None => {},
        }
    }
    while i < count
        invariant
            i <= count,
            b == buf@,
            len == b.len(),
            start == pos + 4,
            parse_u32(b.skip(pos as int)) == Some(count),
            start <= cur <= b.len(),
            counter.wf(),
            whole == parse_entries(b.skip(start as int), count as nat, None),
            whole == glue(
                counter.entries(),
                cur - start,
                parse_entries(
                    b.skip(cur as int),
                    (count - i) as nat,
                    last_name(counter.entries()),
                ),
            ),
        decreases count - i,
    {
        let ghost read = counter.entries();
        let ghost here = b.skip(cur as int);
        assert(here.len() == b.len() - cur);
        let name = match read_name(buf, cur) {
            Some(name) => name,
            None => {
                return None;
            },
        };
        proof {
            lemma_name_parsed(here);
            lemma_auto_spec_u32_to_from_le_bytes();
            assert(here.skip(name_len(name@)) =~= b.skip(cur + name_len(name@)));
            assert(b.skip(cur + name_len(name@)).len() == b.len() - cur - name_len(name@));
        }
        let after_name: usize = cur + 4 + name.as_str().len();
        let value = match read_u64(buf, after_name) {
            Some(value) => value,
            None => {
                return None;
            },
        };
        let ghost label = name@;
        if !counter.push_entry(name, value) {
            return None;
        }
        proof {
            let n = name_len(label);
            assert(here.skip(n + 8) =~= b.skip(cur + n + 8));
            let rest = parse_entries(b.skip(cur + n + 8), (count - i - 1) as nat, Some(label));
            match rest {
                Some((more, m)) => {
                    assert(read + (seq![(label, value)] + more) =~= read.push((label, value))
                        + more);
                },
                None => {},
            }
        }
        cur = after_name + 8;
        i = i + 1;
    }
    proof {
        assert(counter.entries() + Seq::<(Seq<char>, u64)>::empty() =~= counter.entries());
    }
    Some((counter, cur))
}

/// Reads a node at `pos`: the node and the place behind it, or `None`
/// where the bytes from `pos` on do not start with a node.
fn decode_node(buf: &[u8], pos: usize) -> (out: Option<(Node, usize)>)
    requires
        pos <= buf@.len(),
    ensures
        match out {
            Some((node, next)) => {
                &&& node.wf()
                &&& pos <= next <= buf@.len()
                &&& parse_node(buf@.skip(pos as int)) == Some((node.shape(), next - pos))
            },
            None => parse_node(buf@.skip(pos as int)) is None,
        },
    decreases buf@.len() - pos,
{
    let ghost b = buf@;
    let ghost top = b.skip(pos as int);
    let len = buf.len();
    proof {
        if b.len() - pos >= 4 {
            assert(top.skip(4) =~= b.skip(pos + 4));
        }
    }
    let (counter, behind) = match decode_counter(buf, pos) {
        Some(read) => read,
        None => {
            return None;
        },
    };
    let ghost counts = counter.entries();
    let ghost n = behind - pos - 4;
    proof {
        assert(top.skip(4) =~= b.skip(pos + 4));
        assert(top.skip(4 + n) =~= b.skip(behind as int));
        assert(b.skip(behind as int).len() == b.len() - behind);
    }
    let number = match read_u32(buf, behind) {
        Some(number) => number,
        None => {
            return None;
        },
    };
    let start: usize = behind + 4;
    proof {
        assert(top.skip(8 + n) =~= b.skip(start as int));
    }
    let mut node = Node::with_counter(counter);
    let mut cur: usize = start;
    let mut i: u32 = 0;
    let ghost whole = parse_children(b.skip(start as int), number as nat, None);
    proof {
        match whole {
            Some((more, m)) => {
                assert(node.shape().children + more =~= more);
            },
            None => {},
        }
    }
    assert(parse_node(top) == match whole {
        Some((children, m)) => Some((Shape { counts, children }, 8 + n + m)),
        None => None,
    });
    while i < number
        invariant
            i <= number,
            b == buf@,
            len == b.len(),
            pos < start <= cur <= b.len(),
            start == pos + 8 + n,
            top == b.skip(pos as int),
            node.wf(),
            node.shape().counts == counts,
            parse_node(top) == match whole {
                Some((children, m)) => Some((Shape { counts, children }, 8 + n + m)),
                None => None,
            },
            whole == parse_children(b.skip(start as int), number as nat, None),
            whole == glue(
                node.shape().children,
                cur - start,
                parse_children(
                    b.skip(cur as int),
                    (number - i) as nat,
                    last_name(node.shape().children),
                ),
            ),
        decreases number - i,
    {
        let ghost read = node.shape().children;
        let ghost here = b.skip(cur as int);
        assert(here.len() == b.len() - cur);
        let name = match read_name(buf, cur) {
            Some(name) => name,
            None => {
                return None;
            },
        };
        proof {
            lemma_name_parsed(here);
            lemma_auto_spec_u32_to_from_le_bytes();
            assert(here.skip(name_len(name@)) =~= b.skip(cur + name_len(name@)));
        }
        let after_name: usize = cur + 4 + name.as_str().len();
        let (child, next) = match decode_node(buf, after_name) {
            Some(read) => read,
            None => {
                return None;
            },
        };
        let ghost label = name@;
        let ghost below = child.shape();
        match node.push_child(name, child) {
            Some(_) => {
                return None;
            },
            None => {},
        }
        proof {
            let k = name_len(label);
            let m = next - after_name;
            assert(here.skip(k + m) =~= b.skip(next as int));
            let rest = parse_children(b.skip(next as int), (number - i - 1) as nat, Some(label));
            match rest {
                Some((more, r)) => {
                    assert(read + (seq![(label, below)] + more) =~= read.push((label, below))
                        + more);
                },
                None => {},
            }
        }
        cur = next;
        i = i + 1;
    }
    proof {
        assert(node.shape().children + Seq::<(Seq<char>, Shape)>::empty()
            =~= node.shape().children);
        let found = parse_node(top);
        assert(found matches Some((got, taken)) && got.counts == node.shape().counts
            && got.children == node.shape().children && taken == cur - pos);
    }
    Some((node, cur))
}

/// What can be wrong with stored bytes.
#[derive(Clone, Copy, Debug, PartialEq, Eq)]
pub enum DecodeError {
    /// The bytes are not the encoding of a hierarchical counter.
    Corrupt,
}

/// The bytes of a hierarchical counter, or `None` for one that cannot be
/// written: one with more entries in a counter, more children of a node,
/// or more bytes in a name than four bytes can count.
pub fn encode(crdt: &HierarchicalCRDT) -> (out: Option<Vec<u8>>)
    requires
        crdt.wf(),
    ensures
        out is Some <==> shape_fits(crdt.shape()),
        out matches Some(bytes) ==> bytes@ == node_bytes(crdt.shape()),
{
    let mut out: Vec<u8> = Vec::new();
    if encode_node(crdt.root(), &mut out) {
        assert(out@ =~= node_bytes(crdt.shape()));
        Some(out)
    } else {
        None
    }
}

/// The hierarchical counter that the bytes are the encoding of, or
/// `Corrupt` where they are the encoding of none.
pub fn decode(bytes: &[u8]) -> (out: Result<HierarchicalCRDT, DecodeError>)
    ensures
        out is Ok <==> decoded(bytes@) is Some,
        out matches Ok(crdt) ==> crdt.wf() && Some(crdt.shape()) == decoded(bytes@)
            && node_bytes(crdt.shape()) == bytes@,
        out matches Err(e) ==> e == DecodeError::Corrupt,
{
    assert(bytes@.skip(0) =~= bytes@);
    match decode_node(bytes, 0) {
        Some((root, next)) => {
            if next == bytes.len() {
                proof {
                    lemma_decoded(bytes@, root.shape());
                }
                Ok(HierarchicalCRDT::from_root(root))
            } else {
                Err(DecodeError::Corrupt)
            }
        },
        None => Err(DecodeError::Corrupt),
    }
}
} // verus!
