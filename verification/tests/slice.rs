use std::rc::Rc;
use std::sync::Arc;

use calimero_store::keys::KeyOrder;
use calimero_store::slice::BufRef;
use calimero_store::slice::MultiThreadedSlice;
use calimero_store::slice::SingleThreadedSlice;
use calimero_store::slice::Slice;

struct Buf<'a>(&'a [u8]);

impl BufRef for Buf<'_> {
    fn buf(&self) -> &[u8] {
        self.0
    }
}

#[test]
fn test_slice_slice() {
    let data = b"hello";
    let slice = Slice::from(&data[..]);

    assert_eq!(slice.as_ref(), data);
    assert_eq!(&*slice.into_boxed(), data);
}

#[test]
fn test_slice_vec() {
    let data = vec![0; 5];
    let slice = Slice::from(data);

    assert_eq!(slice.as_ref(), [0; 5]);
    assert_eq!(&*slice.into_boxed(), [0; 5]);
}

#[test]
fn test_slice_box() {
    let data: Box<[u8]> = Box::new([0; 5]);
    let slice = Slice::from(data);

    assert_eq!(slice.as_ref(), [0; 5]);
    assert_eq!(&*slice.into_boxed(), [0; 5]);
}

#[test]
fn test_slice_any() {
    let data = Buf(b"hello");
    let slice = SingleThreadedSlice::from_owned(data);

    assert_eq!(slice.as_ref(), b"hello");
    assert_eq!(&*slice.into_boxed(), b"hello");
}

#[test]
fn slices_of_both_modes_keep_their_bytes() {
    let single = SingleThreadedSlice::from_owned(vec![1u8, 2, 3]);
    let multi = MultiThreadedSlice::from_owned(vec![1u8, 2, 3]);
    assert_eq!(single.as_ref(), [1, 2, 3]);
    assert_eq!(multi.as_ref(), [1, 2, 3]);
    assert_eq!(single.len(), 3);
    assert!(single.same_bytes(&multi));
    assert!(!single.same_bytes(&MultiThreadedSlice::from(vec![1u8, 2])));
    assert!(!single.same_bytes(&MultiThreadedSlice::from(vec![1u8, 2, 4])));

    let shared: Rc<Box<[u8]>> = Rc::new(vec![4u8, 5].into_boxed_slice());
    let slice = SingleThreadedSlice::from(shared.clone());
    assert_eq!(&*slice.into_boxed(), [4, 5]);
    assert_eq!(&**shared, [4, 5]);

    let shared: Arc<Box<[u8]>> = Arc::new(vec![6u8].into_boxed_slice());
    let slice = MultiThreadedSlice::from(shared);
    assert_eq!(&*slice.into_boxed(), [6]);

    let array = SingleThreadedSlice::from_owned([7u8; 4]);
    assert_eq!(&*array.into_boxed(), [7; 4]);
    let empty = SingleThreadedSlice::from_slice(&[]);
    assert_eq!(empty.len(), 0);
}

#[test]
fn slices_are_ordered_and_equal_by_their_bytes() {
    let a = SingleThreadedSlice::from_owned(vec![1u8, 2]);
    let b = SingleThreadedSlice::from_slice(&[1u8, 2]);
    let c = MultiThreadedSlice::from(vec![1u8, 3]);
    let d = MultiThreadedSlice::from(vec![1u8]);
    assert!(a == b);
    assert_eq!(a.order(&b), KeyOrder::Same);
    assert_eq!(a.order(&c), KeyOrder::Before);
    assert_eq!(c.order(&a), KeyOrder::After);
    assert_eq!(d.order(&a), KeyOrder::Before);
    assert!(c != d);
}

#[test]
fn a_copy_of_a_buffer_stands_for_the_same_bytes() {
    let data = b"hello";
    let borrowed = SingleThreadedSlice::from_slice(&data[..]);
    let kept = SingleThreadedSlice::from_vec(vec![1u8, 2, 3]);
    let owned = SingleThreadedSlice::from_owned(Buf(b"world"));
    let shared = MultiThreadedSlice::from_owned(vec![4u8, 5]);

    let borrowed_copy = borrowed.clone();
    let kept_copy = kept.clone();
    let owned_copy = owned.clone();
    let shared_copy = shared.clone();

    assert_eq!(borrowed_copy.as_ref(), b"hello");
    assert_eq!(kept_copy.as_ref(), [1, 2, 3]);
    assert_eq!(owned_copy.as_ref(), b"world");
    assert_eq!(shared_copy.as_ref(), [4, 5]);
    assert!(kept_copy == kept);

    assert_eq!(&*kept.into_boxed(), [1, 2, 3]);
    assert_eq!(&*kept_copy.into_boxed(), [1, 2, 3]);
    assert_eq!(&*owned.into_boxed(), b"world");
    assert_eq!(&*owned_copy.into_boxed(), b"world");
    assert_eq!(&*shared.into_boxed(), [4, 5]);
}
