//! A byte buffer that is borrowed, or owned and shared by reference
//! counting, behind one type.
//!
//! A buffer made from a borrowed byte string keeps the borrow. A buffer
//! made from a box of bytes, or from any owner of bytes, keeps the owner
//! behind a reference count: `Rc` in buffers that stay in one thread,
//! `Arc` in buffers that may cross threads. Whatever it was made from, a
//! buffer stands for a byte string, its view, and no operation changes it.
use crate::keys::bytes_lt;
use crate::keys::compare_bytes;
use crate::keys::KeyOrder;
use std::rc::Rc;
use std::sync::Arc;
use vstd::prelude::*;
use vstd::slice::slice_to_vec;

verus! {
/// Something that owns bytes and lends them out.
pub trait BufRef {
    /// The bytes owned. An owner says here what it lends; one that does
    /// not say leaves its bytes unknown to every proof.
    open spec fn bytes(&self) -> Seq<u8> {
        arbitrary()
    }

    /// Lends the bytes.
    fn buf(&self) -> (out: &[u8])
        ensures
            out@ == self.bytes(),
    ;
}

impl BufRef for Vec<u8> {
    open spec fn bytes(&self) -> Seq<u8> {
        self@
    }

    fn buf(&self) -> (out: &[u8]) {
        self.as_slice()
    }
}

impl BufRef for Box<[u8]> {
    open spec fn bytes(&self) -> Seq<u8> {
        self@
    }

    fn buf(&self) -> (out: &[u8]) {
        self
    }
}

impl<'b> BufRef for &'b [u8] {
    open spec fn bytes(&self) -> Seq<u8> {
        self@
    }

    fn buf(&self) -> (out: &[u8]) {
        self
    }
}

impl<const N: usize> BufRef for [u8; N] {
    open spec fn bytes(&self) -> Seq<u8> {
        self@
    }

    fn buf(&self) -> (out: &[u8]) {
        self.as_slice()
    }
}

/// An owner of bytes that may cross threads.
pub trait SharedBufRef: Send + Sync {
    /// The bytes owned.
    spec fn shared_bytes(&self) -> Seq<u8>;

    /// Lends the bytes.
    fn shared_buf(&self) -> (out: &[u8])
        ensures
            out@ == self.shared_bytes(),
    ;
}

impl<B: BufRef + Send + Sync> SharedBufRef for B {
    open spec fn shared_bytes(&self) -> Seq<u8> {
        self.bytes()
    }

    fn shared_buf(&self) -> (out: &[u8]) {
        self.buf()
    }
}

/// Puts a boxed owner of bytes behind a reference count for one thread:
/// `Rc::new` on the box, seen from then on as a box of some owner of
/// bytes. The contract claims that what comes out lends the bytes of the
/// owner that went in.
#[verifier::external_body]
fn share_owner<'a, B: BufRef + 'a>(inner: Box<B>) -> (out: Rc<Box<dyn BufRef + 'a>>)
    ensures
        out.bytes() == inner.bytes(),
{
    Rc::new(inner)
}

/// Puts a boxed owner of bytes behind a reference count for many
/// threads: `Arc::new` on the box, seen from then on as a box of some
/// owner of bytes that may cross threads. The contract claims that what
/// comes out lends the bytes of the owner that went in.
#[verifier::external_body]
fn share_owner_atomic<'a, B: BufRef + Send + Sync + 'a>(inner: Box<B>) -> (out: Arc<
    Box<dyn SharedBufRef + 'a>,
>)
    ensures
        out.shared_bytes() == inner.bytes(),
{
    Arc::new(inner)
}

/// One more handle on what a reference count for one thread keeps, by
/// `Rc::clone`. The contract claims that the new handle stands for the
/// same value as the old one.
#[verifier::external_body]
fn share_rc<K>(kept: &Rc<K>) -> (out: Rc<K>)
    ensures
        out == *kept,
{
    Rc::clone(kept)
}

/// One more handle on what a reference count for many threads keeps, by
/// `Arc::clone`. The contract claims that the new handle stands for the
/// same value as the old one.
#[verifier::external_body]
fn share_arc<K>(kept: &Arc<K>) -> (out: Arc<K>)
    ensures
        out == *kept,
{
    Arc::clone(kept)
}

/// Turns a vector of bytes into a box of the same bytes, by
/// `Vec::into_boxed_slice`.
#[verifier::external_body]
fn boxed(bytes: Vec<u8>) -> (out: Box<[u8]>)
    ensures
        out@ == bytes@,
{
    bytes.into_boxed_slice()
}

/// A box holding a copy of the bytes.
fn boxed_copy(bytes: &[u8]) -> (out: Box<[u8]>)
    ensures
        out@ == bytes@,
{
    boxed(slice_to_vec(bytes))
}

/// How a buffer keeps bytes that it owns.
pub trait SliceBehavior<'a>: Sized {
    /// The bytes kept.
    spec fn bytes(&self) -> Seq<u8>;

    /// Lends the bytes.
    fn as_bytes(&self) -> (out: &[u8])
        ensures
            out@ == self.bytes(),
    ;

    /// Keeps a box of bytes.
    fn from_boxed(inner: Box<[u8]>) -> (out: Self)
        ensures
            out.bytes() == inner@,
    ;

    /// Gives the bytes up as a box: the box that was kept, where nobody
    /// else shares it, else a copy.
    fn into_boxed(self) -> (out: Box<[u8]>)
        ensures
            out@ == self.bytes(),
    ;

    /// One more handle on the bytes kept. No byte is copied.
    fn share(&self) -> (out: Self)
        ensures
            out.bytes() == self.bytes(),
    ;
}

/// Whether buffers may cross threads.
pub trait ThreadMode {
    /// How a buffer of this mode keeps bytes that it owns.
    type Inner<'a>: SliceBehavior<'a>;
}

/// Bytes shared between the buffers of one thread.
pub enum RefCountedSlice<'a> {
    /// A box of bytes.
    Box(Rc<Box<[u8]>>),
    /// Any owner of bytes.
    Any(Rc<Box<dyn BufRef + 'a>>),
}

impl<'a> SliceBehavior<'a> for RefCountedSlice<'a> {
    open spec fn bytes(&self) -> Seq<u8> {
        match self {
            RefCountedSlice::Box(inner) => inner@,
            RefCountedSlice::Any(inner) => inner.bytes(),
        }
    }

    fn as_bytes(&self) -> (out: &[u8]) {
        match self {
            RefCountedSlice::Box(inner) => inner,
            RefCountedSlice::Any(inner) => inner.buf(),
        }
    }

    fn from_boxed(inner: Box<[u8]>) -> (out: Self) {
        RefCountedSlice::Box(Rc::new(inner))
    }

    fn into_boxed(self) -> (out: Box<[u8]>) {
        match self {
            RefCountedSlice::Box(inner) => match Rc::try_unwrap(inner) {
                Ok(bytes) => bytes,
                Err(shared) => boxed_copy(&shared),
            },
            RefCountedSlice::Any(inner) => boxed_copy(inner.buf()),
        }
    }

    fn share(&self) -> (out: Self) {
        match self {
            RefCountedSlice::Box(inner) => RefCountedSlice::Box(share_rc(inner)),
            RefCountedSlice::Any(inner) => RefCountedSlice::Any(share_rc(inner)),
        }
    }
}

/// Bytes shared between the buffers of many threads.
pub enum AtomicSlice<'a> {
    /// A box of bytes.
    Box(Arc<Box<[u8]>>),
    /// Any owner of bytes that may cross threads.
    Any(Arc<Box<dyn SharedBufRef + 'a>>),
}

impl<'a> SliceBehavior<'a> for AtomicSlice<'a> {
    open spec fn bytes(&self) -> Seq<u8> {
        match self {
            AtomicSlice::Box(inner) => inner@,
            AtomicSlice::Any(inner) => inner.shared_bytes(),
        }
    }

    fn as_bytes(&self) -> (out: &[u8]) {
        match self {
            AtomicSlice::Box(inner) => inner,
            AtomicSlice::Any(inner) => inner.shared_buf(),
        }
    }

    fn from_boxed(inner: Box<[u8]>) -> (out: Self) {
        AtomicSlice::Box(Arc::new(inner))
    }

    fn into_boxed(self) -> (out: Box<[u8]>) {
        match self {
            AtomicSlice::Box(inner) => boxed_copy(&inner),
            AtomicSlice::Any(inner) => boxed_copy(inner.shared_buf()),
        }
    }

    fn share(&self) -> (out: Self) {
        match self {
            AtomicSlice::Box(inner) => AtomicSlice::Box(share_arc(inner)),
            AtomicSlice::Any(inner) => AtomicSlice::Any(share_arc(inner)),
        }
    }
}

/// The mode of buffers that may cross threads.
pub enum MultiThreaded {
    /// The one value of the mode. Nothing is kept in it.
    Marker,
}

impl ThreadMode for MultiThreaded {
    type Inner<'a> = AtomicSlice<'a>;
}

/// The mode of buffers that stay in one thread.
pub enum SingleThreaded {
    /// The one value of the mode. Nothing is kept in it.
    Marker,
}

impl ThreadMode for SingleThreaded {
    type Inner<'a> = RefCountedSlice<'a>;
}

/// What a buffer keeps: a borrow, or bytes that it owns.
enum SliceInner<'a, T: ThreadMode> {
    /// Borrowed bytes.
    Raw(&'a [u8]),
    /// Owned bytes, shared in the way of the mode.
    Ref(T::Inner<'a>),
}

/// A byte buffer: borrowed, or owned and shared in the way of its mode.
pub struct Slice<'a, T: ThreadMode = SingleThreaded> {
    inner: SliceInner<'a, T>,
}

/// A buffer that stays in one thread.
pub type SingleThreadedSlice<'a> = Slice<'a, SingleThreaded>;

/// A buffer that may cross threads.
pub type MultiThreadedSlice<'a> = Slice<'a, MultiThreaded>;

impl<'a, T: ThreadMode> View for Slice<'a, T> {
    type V = Seq<u8>;

    /// The bytes that the buffer stands for.
    closed spec fn view(&self) -> Seq<u8> {
        match self.inner {
            SliceInner::Raw(inner) => inner@,
            SliceInner::Ref(inner) => inner.bytes(),
        }
    }
}

impl<'a> Slice<'a, MultiThreaded> {
    /// A buffer that keeps the given owner of bytes and stands for its
    /// bytes.
    pub fn from_owned<B: BufRef + Send + Sync + 'a>(inner: B) -> (out: Self)
        ensures
            out@ == inner.bytes(),
    {
        Slice { inner: SliceInner::Ref(AtomicSlice::Any(share_owner_atomic(Box::new(inner)))) }
    }

    /// A buffer that shares the given box of bytes.
    pub fn from_arc(inner: Arc<Box<[u8]>>) -> (out: Self)
        ensures
            out@ == inner@,
    {
        Slice { inner: SliceInner::Ref(AtomicSlice::Box(inner)) }
    }
}

impl<'a> Slice<'a, SingleThreaded> {
    /// A buffer that keeps the given owner of bytes and stands for its
    /// bytes.
    pub fn from_owned<B: BufRef + 'a>(inner: B) -> (out: Self)
        ensures
            out@ == inner.bytes(),
    {
        Slice { inner: SliceInner::Ref(RefCountedSlice::Any(share_owner(Box::new(inner)))) }
    }

    /// A buffer that shares the given box of bytes.
    pub fn from_rc(inner: Rc<Box<[u8]>>) -> (out: Self)
        ensures
            out@ == inner@,
    {
        Slice { inner: SliceInner::Ref(RefCountedSlice::Box(inner)) }
    }
}

impl<'a, T: ThreadMode> Slice<'a, T> {
    /// A buffer that borrows the given bytes.
    pub fn from_slice(inner: &'a [u8]) -> (out: Self)
        ensures
            out@ == inner@,
    {
        Slice { inner: SliceInner::Raw(inner) }
    }

    /// A buffer that keeps the given box of bytes.
    pub fn from_boxed(inner: Box<[u8]>) -> (out: Self)
        ensures
            out@ == inner@,
    {
        Slice { inner: SliceInner::Ref(T::Inner::from_boxed(inner)) }
    }

    /// A buffer that keeps the given vector of bytes, boxed.
    pub fn from_vec(inner: Vec<u8>) -> (out: Self)
        ensures
            out@ == inner@,
    {
        Self::from_boxed(boxed(inner))
    }

    /// The bytes of the buffer.
    pub fn as_ref(&self) -> (out: &[u8])
        ensures
            out@ == self@,
    {
        match &self.inner {
            SliceInner::Raw(inner) => inner,
            SliceInner::Ref(inner) => inner.as_bytes(),
        }
    }

    /// The number of bytes.
    pub fn len(&self) -> (len: usize)
        ensures
            len == self@.len(),
    {
        self.as_ref().len()
    }

    /// Gives the bytes up as a box: the box that the buffer kept, where
    /// it kept one that nobody else shares, else a copy of the bytes.
    pub fn into_boxed(self) -> (out: Box<[u8]>)
        ensures
            out@ == self@,
    {
        match self.inner {
            SliceInner::Raw(inner) => boxed_copy(inner),
            SliceInner::Ref(inner) => inner.into_boxed(),
        }
    }

    /// How the bytes of this buffer stand to those of another, of
    /// whatever mode, in the order of byte strings: byte by byte, a proper
    /// prefix coming first.
    pub fn order<'b, U: ThreadMode>(&self, other: &Slice<'b, U>) -> (order: KeyOrder)
        ensures
            order is Before <==> bytes_lt(self@, other@),
            order is Same <==> self@ == other@,
            order is After <==> bytes_lt(other@, self@),
    {
        compare_bytes(self.as_ref(), other.as_ref())
    }

    /// Whether this buffer and another, of whatever mode, stand for the
    /// same bytes.
    pub fn same_bytes<'b, U: ThreadMode>(&self, other: &Slice<'b, U>) -> (same: bool)
        ensures
            same == (self@ == other@),
    {
        let a = self.as_ref();
        let b = other.as_ref();
        if a.len() != b.len() {
            return false;
        }
        let mut i: usize = 0;
        while i < a.len()
            invariant
                i <= a.len(),
                a.len() == b.len(),
                a@ == self@,
                b@ == other@,
                forall|j: int| 0 <= j < i ==> a@[j] == b@[j],
            decreases a.len() - i,
        {
            if a[i] != b[i] {
                return false;
            }
            i = i + 1;
        }
        assert(a@ =~= b@);
        true
    }
}

impl<'a> From<&'a [u8]> for Slice<'a, MultiThreaded> {
    /// A buffer that borrows the given bytes.
    fn from(inner: &'a [u8]) -> (out: Self)
        ensures
            out@ == inner@,
    {
        Self::from_slice(inner)
    }
}

impl<'a> vstd::std_specs::convert::FromSpecImpl<&'a [u8]> for Slice<'a, MultiThreaded> {
    /// The conversion fixes the bytes of the buffer, which the contract
    /// of `from` states, and not the way in which they are kept.
    open spec fn obeys_from_spec() -> bool {
        false
    }

    /// Left open: see `obeys_from_spec`.
    open spec fn from_spec(inner: &'a [u8]) -> Self {
        arbitrary()
    }
}

impl<'a> From<Box<[u8]>> for Slice<'a, MultiThreaded> {
    /// A buffer that keeps the given box of bytes.
    fn from(inner: Box<[u8]>) -> (out: Self)
        ensures
            out@ == inner@,
    {
        Self::from_boxed(inner)
    }
}

impl<'a> vstd::std_specs::convert::FromSpecImpl<Box<[u8]>> for Slice<'a, MultiThreaded> {
    /// The conversion fixes the bytes of the buffer, which the contract
    /// of `from` states, and not the way in which they are kept.
    open spec fn obeys_from_spec() -> bool {
        false
    }

    /// Left open: see `obeys_from_spec`.
    open spec fn from_spec(inner: Box<[u8]>) -> Self {
        arbitrary()
    }
}

impl<'a> From<Vec<u8>> for Slice<'a, MultiThreaded> {
    /// A buffer that keeps the given vector of bytes, boxed.
    fn from(inner: Vec<u8>) -> (out: Self)
        ensures
            out@ == inner@,
    {
        Self::from_vec(inner)
    }
}

impl<'a> vstd::std_specs::convert::FromSpecImpl<Vec<u8>> for Slice<'a, MultiThreaded> {
    /// The conversion fixes the bytes of the buffer, which the contract
    /// of `from` states, and not the way in which they are kept.
    open spec fn obeys_from_spec() -> bool {
        false
    }

    /// Left open: see `obeys_from_spec`.
    open spec fn from_spec(inner: Vec<u8>) -> Self {
        arbitrary()
    }
}

impl<'a> From<Arc<Box<[u8]>>> for Slice<'a, MultiThreaded> {
    /// A buffer that shares the given box of bytes.
    fn from(inner: Arc<Box<[u8]>>) -> (out: Self)
        ensures
            out@ == inner@,
    {
        Self::from_arc(inner)
    }
}

impl<'a> vstd::std_specs::convert::FromSpecImpl<Arc<Box<[u8]>>> for Slice<'a, MultiThreaded> {
    /// The conversion fixes the bytes of the buffer, which the contract
    /// of `from` states, and not the way in which they are kept.
    open spec fn obeys_from_spec() -> bool {
        false
    }

    /// Left open: see `obeys_from_spec`.
    open spec fn from_spec(inner: Arc<Box<[u8]>>) -> Self {
        arbitrary()
    }
}

impl<'a> From<Rc<Box<[u8]>>> for Slice<'a, SingleThreaded> {
    /// A buffer that shares the given box of bytes.
    fn from(inner: Rc<Box<[u8]>>) -> (out: Self)
        ensures
            out@ == inner@,
    {
        Self::from_rc(inner)
    }
}

impl<'a> vstd::std_specs::convert::FromSpecImpl<Rc<Box<[u8]>>> for Slice<'a, SingleThreaded> {
    /// The conversion fixes the bytes of the buffer, which the contract
    /// of `from` states, and not the way in which they are kept.
    open spec fn obeys_from_spec() -> bool {
        false
    }

    /// Left open: see `obeys_from_spec`.
    open spec fn from_spec(inner: Rc<Box<[u8]>>) -> Self {
        arbitrary()
    }
}

impl<'a, T: ThreadMode> Clone for Slice<'a, T> {
    /// A buffer that stands for the same bytes: it borrows what this one
    /// borrows, or shares what this one keeps. No byte is copied.
    fn clone(&self) -> (copy: Self)
        ensures
            copy@ == self@,
    {
        match &self.inner {
            SliceInner::Raw(inner) => Slice { inner: SliceInner::Raw(*inner) },
            SliceInner::Ref(inner) => Slice { inner: SliceInner::Ref(inner.share()) },
        }
    }
}

impl<'a, T: ThreadMode> PartialEq for Slice<'a, T> {
    /// Buffers are equal where they stand for the same bytes, however
    /// they keep them.
    fn eq(&self, other: &Self) -> (same: bool) {
        self.same_bytes(other)
    }
}

impl<'a, T: ThreadMode> vstd::std_specs::cmp::PartialEqSpecImpl for Slice<'a, T> {
    open spec fn obeys_eq_spec() -> bool {
        true
    }

    open spec fn eq_spec(&self, other: &Self) -> bool {
        self@ == other@
    }
}
} // verus!
