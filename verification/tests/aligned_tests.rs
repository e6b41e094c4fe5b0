use std::cell::RefCell;
use std::rc::Rc;

use hello_rust_core::aligned::A16;
use hello_rust_core::aligned::A2;
use hello_rust_core::aligned::A32;
use hello_rust_core::aligned::A4;
use hello_rust_core::aligned::Alignment;
use hello_rust_core::aligned::A64;
use hello_rust_core::aligned::A8;
use hello_rust_core::aligned::Aligned;
use hello_rust_core::aligned::AlignedBox;

#[test]
fn aligned_value_roundtrip() {
    let x: Aligned<A2, [u8; 3]> = Aligned::new([1, 2, 3]);
    assert_eq!(*x.get(), [1, 2, 3]);
    assert_eq!(x.into_inner(), [1, 2, 3]);

    let mut y: Aligned<A16, u64> = Aligned::new(5);
    *y.get_mut() = 6;
    assert_eq!(y.into_inner(), 6);

    let z: Aligned<A8, u32> = Aligned::new(17);
    let w = z.clone();
    assert_eq!(z, w);
}

#[test]
fn test_uninit() {
    let len = 20;
    let mut slice: AlignedBox<A64, Option<usize>> =
        AlignedBox::<A64, usize>::new_uninit_slice(len);
    for i in 0..len {
        slice.write(i, i);
    }
    let slice = slice.assume_init();

    assert_eq!(slice.len(), len);
    for i in 0..len {
        assert_eq!(*slice.get(i), i);
    }
}

#[test]
fn test_zeroed() {
    let len = 20;
    let slice: AlignedBox<A64, Option<usize>> = AlignedBox::<A64, usize>::new_zeroed_slice(len);
    let slice = slice.assume_init();

    assert_eq!(slice.len(), len);
    for i in 0..len {
        assert_eq!(*slice.get(i), 0);
    }
}

#[test]
fn test_zero_sized() {
    let len = 20;
    let slice: AlignedBox<A64, Option<()>> = AlignedBox::<A64, ()>::new_zeroed_slice(len);
    let slice = slice.assume_init();

    assert_eq!(slice.len(), len);
    for i in 0..len {
        assert_eq!(*slice.get(i), ());
    }
}

#[test]
fn test_zero_length() {
    let slice: AlignedBox<A64, Option<usize>> = AlignedBox::<A64, usize>::new_zeroed_slice(0);
    let slice = slice.assume_init();

    assert_eq!(slice.len(), 0);
}

#[derive(Clone)]
struct DropCounted(Rc<RefCell<usize>>);

impl Drop for DropCounted {
    fn drop(&mut self) {
        *self.0.borrow_mut() += 1;
    }
}

#[test]
fn test_from_into_vec() {
    let counter = Rc::new(RefCell::new(0));
    let x: AlignedBox<A64, DropCounted> = vec![DropCounted(counter.clone()); 5].into();
    let _: Vec<DropCounted> = x.into();
    assert_eq!(5, *counter.borrow());
}

#[test]
fn vec_roundtrip_lengths() {
    let empty: Vec<u64> = Vec::new();
    let b: AlignedBox<A8, u64> = AlignedBox::from_vec(empty);
    assert_eq!(b.into_vec(), Vec::<u64>::new());

    let one = vec![42u64];
    let b: AlignedBox<A8, u64> = AlignedBox::from_vec(one.clone());
    assert_eq!(b.into_vec(), one);

    let many: Vec<u64> = (0..97).collect();
    let b: AlignedBox<A8, u64> = AlignedBox::from_vec(many.clone());
    assert_eq!(b.len(), 97);
    assert_eq!(b.into_vec(), many);
}

#[test]
fn single_value_box() {
    let b: AlignedBox<A64, u64> = AlignedBox::new(42);
    assert_eq!(b.len(), 1);
    assert_eq!(b.into_inner(), 42);
}

#[test]
fn byte_sizes_round_up_to_class() {
    let b: AlignedBox<A64, u64> = AlignedBox::from_vec(vec![1, 2, 3]);
    // three 8-byte words padded to the 64-byte class
    assert_eq!(b.cmov_byte_size(), 64);

    let b: AlignedBox<A8, u64> = AlignedBox::from_vec(vec![1, 2, 3]);
    assert_eq!(b.cmov_byte_size(), 24);

    let b: AlignedBox<A16, u8> = AlignedBox::from_vec(vec![9; 17]);
    assert_eq!(b.cmov_byte_size(), 32);

    let b: AlignedBox<A8, u64> = AlignedBox::from_vec(Vec::new());
    assert_eq!(b.cmov_byte_size(), 0);
}

#[test]
fn alignment_class_sizes() {
    assert_eq!(A2::size(), 2);
    assert_eq!(A4::size(), 4);
    assert_eq!(A8::size(), 8);
    assert_eq!(A16::size(), 16);
    assert_eq!(A32::size(), 32);
    assert_eq!(A64::size(), 64);
}
