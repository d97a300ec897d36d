use bitvec::index::BitIdx;
use bitvec::mem::BitMemory;
use bitvec::pointer::BitPtr;

#[test]
fn jump_far_up() {
    //  isize::MAX is 0x7f...ff, so the result bit will be one less than the
    //  start bit.
    for n in 1..8u8 {
        let (elt, bit) = BitIdx::<u8>::new(n).unwrap().offset(isize::MAX);
        assert_eq!(elt, (isize::MAX >> u8::indx()) + 1);
        assert_eq!(bit.get(), n - 1);
    }
    let (elt, bit) = BitIdx::<u8>::new(0).unwrap().offset(isize::MAX);
    assert_eq!(elt, isize::MAX >> u8::indx());
    assert_eq!(bit.get(), 7);
}

#[test]
fn jump_far_down() {
    //  isize::MIN is 0x80...00, so the result bit will be equal to the start
    //  bit.
    for n in 0..8u8 {
        let (elt, bit) = BitIdx::<u8>::new(n).unwrap().offset(isize::MIN);
        assert_eq!(elt, isize::MIN >> u8::indx());
        assert_eq!(bit.get(), n);
    }
}

#[test]
fn jump_far_in_wide_elements() {
    for n in 1..64u8 {
        let (elt, bit) = BitIdx::<u64>::new(n).unwrap().offset(isize::MAX);
        assert_eq!(elt, (isize::MAX >> 6) + 1);
        assert_eq!(bit.get(), n - 1);
        let (elt, bit) = BitIdx::<u64>::new(n).unwrap().offset(isize::MIN);
        assert_eq!(elt, isize::MIN >> 6);
        assert_eq!(bit.get(), n);
    }
}

#[test]
fn short_jumps() {
    let at = |n: u8| BitIdx::<u8>::new(n).unwrap();
    let moved = |n: u8, by: isize| {
        let (elt, bit) = at(n).offset(by);
        (elt, bit.get())
    };
    assert_eq!(moved(3, 0), (0, 3));
    assert_eq!(moved(3, 4), (0, 7));
    assert_eq!(moved(3, 5), (1, 0));
    assert_eq!(moved(3, 13), (2, 0));
    assert_eq!(moved(3, -3), (0, 0));
    assert_eq!(moved(3, -4), (-1, 7));
    assert_eq!(moved(3, -11), (-1, 0));
    assert_eq!(moved(3, -12), (-2, 7));
    assert_eq!(moved(0, -1), (-1, 7));
    assert_eq!(moved(0, -8), (-1, 0));
    assert_eq!(moved(7, 1), (1, 0));
}

#[test]
fn pointer_offset() {
    let bp = BitPtr::<u16>::new(10, 3, 20).unwrap();
    let up = bp.offset(30);
    assert_eq!((up.pointer(), up.head().get(), up.len()), (12, 1, 20));
    let down = bp.offset(-4);
    assert_eq!((down.pointer(), down.head().get(), down.len()), (9, 15, 20));
    let same = bp.offset(0);
    assert_eq!((same.pointer(), same.head().get(), same.len()), (10, 3, 20));
}
