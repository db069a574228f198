use bumpalo::Bump;
use pyrite::pooling::SlicePool;

#[test]
fn handed_out_slices_are_filled() {
    let arena = Bump::new();
    let mut pool: SlicePool<u32> = SlicePool::new(&arena, 3);
    let a = pool.get_fill_copy(7);
    assert_eq!(&*a, &[7, 7, 7][..]);
    let b = pool.get_fill_iter(vec![1, 2, 3]);
    assert_eq!(&*b, &[1, 2, 3][..]);
}

#[test]
fn given_back_slices_are_refilled() {
    let arena = Bump::new();
    let mut pool: SlicePool<u32> = SlicePool::with_capacity_fill_copy(&arena, 2, 1, 9);
    let a = pool.get_fill_copy(4);
    assert_eq!(&*a, &[4, 4][..]);
    let given = arena.alloc_slice_copy(&[5u32, 6]);
    pool.recycle(given);
    let b = pool.get_fill_iter(vec![8, 9]);
    assert_eq!(&*b, &[8, 9][..]);
    pool.recycle(b);
    let c = pool.get_fill_copy(0);
    assert_eq!(&*c, &[0, 0][..]);
}

#[test]
fn the_slice_given_back_last_is_handed_out_next() {
    let arena = Bump::new();
    let mut pool: SlicePool<u8> = SlicePool::new(&arena, 4);
    let a = pool.get_fill_copy(1);
    let first = a.as_ptr();
    let b = pool.get_fill_copy(2);
    let second = b.as_ptr();
    assert_ne!(first, second);
    pool.recycle(a);
    pool.recycle(b);
    let c = pool.get_fill_copy(3);
    assert_eq!(c.as_ptr(), second);
    assert_eq!(&*c, &[3, 3, 3, 3][..]);
    let d = pool.get_fill_iter(vec![4, 5, 6, 7]);
    assert_eq!(d.as_ptr(), first);
    assert_eq!(&*d, &[4, 5, 6, 7][..]);
}

#[test]
fn an_empty_length_gives_empty_slices() {
    let arena = Bump::new();
    let mut pool: SlicePool<u8> = SlicePool::with_capacity_fill_copy(&arena, 0, 2, 1);
    assert!(pool.get_fill_copy(3).is_empty());
    assert!(pool.get_fill_copy(3).is_empty());
    assert!(pool.get_fill_copy(3).is_empty());
}

