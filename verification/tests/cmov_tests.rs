use hello_rust_core::aligned::A64;
use hello_rust_core::aligned::A8;
use hello_rust_core::aligned::Aligned;
use hello_rust_core::aligned::AlignedBox;
use hello_rust_core::cmov::CMov;
use hello_rust_core::cmov::cmov_bytes_a32;
use hello_rust_core::cmov::cmov_bytes_a64;
use hello_rust_core::cmov::cmov_bytes_a8;

fn check_cmov<T: CMov + PartialEq + core::fmt::Debug + Copy>(a: T, b: T) {
    for &choice in &[false, true] {
        let src = a;
        let mut dst = b;
        dst.cnd_assign(&src, choice);
        assert_eq!(src, a);
        if choice {
            assert_eq!(dst, a);
            assert_eq!(T::cnd_select(&a, &b, choice), b);
        } else {
            assert_eq!(dst, b);
            assert_eq!(T::cnd_select(&a, &b, choice), a);
        }
        let mut x = a;
        let mut y = b;
        T::cnd_swap(&mut x, &mut y, choice);
        if choice {
            assert_eq!((x, y), (b, a));
        } else {
            assert_eq!((x, y), (a, b));
        }
        assert_eq!(a.dup(), a);
    }
}

#[test]
fn test_bool() {
    check_cmov(false, true);
    check_cmov(true, true);
    check_cmov(false, false);
}

#[test]
fn test_u8() {
    check_cmov(0x5au8, 0xa5u8);
    check_cmov(0u8, 255u8);
}

#[test]
fn test_i8() {
    check_cmov(-100i8, 27i8);
    check_cmov(i8::MIN, i8::MAX);
}

#[test]
fn test_u16() {
    check_cmov(0x1234u16, 0xfedcu16);
}

#[test]
fn test_i16() {
    check_cmov(-30000i16, 12345i16);
}

#[test]
fn test_u32() {
    check_cmov(0xdead_beefu32, 0x0bad_f00du32);
}

#[test]
fn test_i32() {
    check_cmov(i32::MIN, i32::MAX);
}

#[test]
fn test_u64() {
    check_cmov(0x0123_4567_89ab_cdefu64, 0xfedc_ba98_7654_3210u64);
}

#[test]
fn test_i64() {
    check_cmov(i64::MIN, i64::MAX);
    check_cmov(-1i64, 1i64);
}

#[test]
fn test_usize() {
    check_cmov(usize::MIN, usize::MAX);
    check_cmov(17usize, 41usize);
}

#[test]
fn test_isize() {
    check_cmov(isize::MIN, isize::MAX);
    check_cmov(-9isize, 8isize);
}

#[test]
fn test_unit_and_tuples() {
    check_cmov((), ());
    check_cmov((1u8,), (2u8,));
    check_cmov((1u64, true), (2u64, false));
    check_cmov((1u32, -5i8, 7u64), (9u32, 5i8, 1u64));
    check_cmov((1u8, 2u16, 3u32, 4u64), (5u8, 6u16, 7u32, 8u64));
}

#[test]
fn test_aligned_value() {
    for &choice in &[false, true] {
        let a: Aligned<A8, u64> = Aligned::new(11);
        let b: Aligned<A8, u64> = Aligned::new(22);
        let r = <Aligned<A8, u64> as CMov>::cnd_select(&a, &b, choice);
        assert_eq!(*r.get(), if choice { 22 } else { 11 });
        let mut x = Aligned::<A8, u64>::new(1);
        let mut y = Aligned::<A8, u64>::new(2);
        <Aligned<A8, u64> as CMov>::cnd_swap(&mut x, &mut y, choice);
        if choice {
            assert_eq!((x.into_inner(), y.into_inner()), (2, 1));
        } else {
            assert_eq!((x.into_inner(), y.into_inner()), (1, 2));
        }
    }
}

#[test]
fn test_aligned_slice_box() {
    let len = 250;
    let a = {
        let mut slice: AlignedBox<A64, Option<usize>> =
            AlignedBox::<A64, usize>::new_uninit_slice(len);
        for i in 0..len {
            slice.write(i, i);
        }
        slice.assume_init()
    };
    let b = {
        let mut slice: AlignedBox<A64, Option<usize>> =
            AlignedBox::<A64, usize>::new_uninit_slice(len);
        for i in 0..len {
            slice.write(i, 2 * i);
        }
        slice.assume_init()
    };

    let src = a.clone();
    let mut dst = b.clone();

    let choice = false;
    dst.cnd_assign(&src, choice);
    assert_eq!(src, a);
    assert_eq!(dst, b);
    assert_eq!(<AlignedBox<A64, usize> as CMov>::cnd_select(&a, &b, choice), a);

    let choice = true;
    dst.cnd_assign(&src, choice);
    assert_eq!(src, a);
    assert_eq!(dst, a);
    assert_eq!(<AlignedBox<A64, usize> as CMov>::cnd_select(&a, &b, choice), b);
}

#[test]
fn test_cmov_bytes() {
    let src: Vec<u8> = (0..64u16).map(|i| i as u8).collect();
    let orig: Vec<u8> = (0..64u16).map(|i| (200 - i) as u8).collect();

    let mut dst = orig[..8].to_vec();
    cmov_bytes_a8(false, &src[..8], &mut dst);
    assert_eq!(dst, orig[..8].to_vec());
    cmov_bytes_a8(true, &src[..8], &mut dst);
    assert_eq!(dst, src[..8].to_vec());

    let mut dst = orig[..32].to_vec();
    cmov_bytes_a32(true, &src[..32], &mut dst);
    assert_eq!(dst, src[..32].to_vec());
    cmov_bytes_a32(false, &src[..32], &mut dst);
    assert_eq!(dst, src[..32].to_vec());

    let mut dst = orig.clone();
    cmov_bytes_a64(true, &src, &mut dst);
    assert_eq!(dst, src);
    let mut dst = orig.clone();
    cmov_bytes_a64(false, &src, &mut dst);
    assert_eq!(dst, orig);
}
