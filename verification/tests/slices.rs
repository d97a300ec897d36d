use bitvec::order::{Local, Lsb0, Msb0};
use bitvec::pointer::BitPtrError;
use bitvec::slice::{AsBits, BitDomain, BitSlice, IndexError};

#[test]
fn from_slice_covers_every_bit() {
    let src = [1u8, 2, 3];
    let bits = BitSlice::<Msb0, u8>::from_slice(&src).unwrap();
    assert_eq!(bits.len(), 24);
    assert_eq!(bits.as_aliased_slice(&src).len(), 3);
    assert!(bits.fits(&src));
    assert!(!bits.fits(&src[..2]));
    assert_eq!(bits.get(&src, 7), Ok(true));
    assert_eq!(bits.get(&src, 14), Ok(true));
    assert_eq!(bits.get(&src, 22), Ok(true));
    assert_eq!(bits.get(&src, 23), Ok(true));
    assert_eq!(bits.get(&src, 0), Ok(false));
    assert_eq!(bits.get(&src, 24), Err(IndexError { index: 24, len: 24 }));
}

#[test]
fn the_empty_view() {
    let bits = BitSlice::<Local, u32>::empty();
    let mem: [u32; 0] = [];
    assert_eq!(bits.len(), 0);
    assert!(bits.is_empty());
    assert!(bits.fits(&mem));
    assert!(bits.all(&mem));
    assert!(!bits.any(&mem));
    assert_eq!(bits.count_ones(&mem), 0);
    assert_eq!(bits.count_zeros(&mem), 0);
    assert_eq!(bits.get(&mem, 0), Err(IndexError { index: 0, len: 0 }));
    assert!(bits.domain().is_empty());
}

#[test]
fn set_writes_one_bit() {
    let mut src = [0u8, 0, 0, 0];
    let bits = BitSlice::<Msb0, u8>::from_slice(&src).unwrap();
    bits.set(&mut src, 13, true).unwrap();
    assert_eq!(bits.get(&src, 13), Ok(true));
    assert_eq!(src, [0, 4, 0, 0]);

    let mut src = [1u8, 2, 3];
    let bits = BitSlice::<Lsb0, u8>::from_slice(&src).unwrap();
    assert_eq!(bits.get(&src, 0), Ok(true));
    bits.set(&mut src, 0, false).unwrap();
    assert_eq!(bits.get(&src, 0), Ok(false));
    assert_eq!(src, [0, 2, 3]);
    assert_eq!(bits.set(&mut src, 24, true), Err(IndexError { index: 24, len: 24 }));
    assert_eq!(src, [0, 2, 3]);
}

#[test]
fn set_in_a_range_counts_from_its_start() {
    let mut src = [0u8];
    let bits = BitSlice::<Msb0, u8>::from_slice(&src).unwrap();
    let part = bits.range(2, 4).unwrap();
    assert_eq!(part.len(), 2);
    part.set(&mut src, 1, true).unwrap();
    assert_eq!(src, [0b0001_0000]);
    assert_eq!(part.set(&mut src, 2, true), Err(IndexError { index: 2, len: 2 }));
}

#[test]
fn all_any_and_their_kin() {
    let src = [0xFDu8];
    let bits = BitSlice::<Msb0, u8>::from_slice(&src).unwrap();
    assert!(bits.range(0, 4).unwrap().all(&src));
    assert!(!bits.range(4, 8).unwrap().all(&src));
    assert!(!bits.range(0, 4).unwrap().not_all(&src));
    assert!(bits.range(4, 8).unwrap().not_all(&src));

    let src = [0x40u8];
    let bits = BitSlice::<Msb0, u8>::from_slice(&src).unwrap();
    assert!(bits.range(0, 4).unwrap().any(&src));
    assert!(!bits.range(4, 8).unwrap().any(&src));
    assert!(!bits.range(0, 4).unwrap().not_any(&src));
    assert!(bits.range(4, 8).unwrap().not_any(&src));

    let src = [0b111_000_10u8];
    let bits = BitSlice::<Msb0, u8>::from_slice(&src).unwrap();
    assert!(!bits.range(0, 3).unwrap().some(&src));
    assert!(!bits.range(3, 6).unwrap().some(&src));
    assert!(bits.range(6, 8).unwrap().some(&src));
}

#[test]
fn reductions_ignore_the_bits_of_neighbours() {
    let src = [0b0000_0111u8, 0xFF, 0xFF, 0b1110_0000];
    let bits = BitSlice::<Msb0, u8>::from_slice(&src).unwrap();
    let part = bits.range(5, 27).unwrap();
    assert!(part.domain().is_major());
    assert!(part.all(&src));
    assert_eq!(part.count_ones(&src), 22);
    assert_eq!(part.count_zeros(&src), 0);
    assert!(!bits.range(4, 27).unwrap().all(&src));
    assert!(!bits.range(5, 28).unwrap().all(&src));

    let src = [0b1111_1000u8, 0, 0, 0b0001_1111];
    let bits = BitSlice::<Msb0, u8>::from_slice(&src).unwrap();
    let part = bits.range(5, 27).unwrap();
    assert!(!part.any(&src));
    assert_eq!(part.count_ones(&src), 0);
    assert_eq!(part.count_zeros(&src), 22);
    assert!(bits.range(4, 27).unwrap().any(&src));
    assert!(bits.range(5, 28).unwrap().any(&src));

    let src = [0u8, 0, 0b0001_0000, 0];
    let bits = BitSlice::<Lsb0, u8>::from_slice(&src).unwrap();
    assert!(bits.range(3, 29).unwrap().any(&src));
    assert!(bits.range(3, 29).unwrap().some(&src));
    assert!(!bits.range(3, 20).unwrap().any(&src));
    assert!(!bits.range(21, 29).unwrap().any(&src));
}

#[test]
fn counting() {
    let src = [0xFDu8, 0x25];
    let bits = BitSlice::<Msb0, u8>::from_slice(&src).unwrap();
    assert_eq!(bits.count_ones(&src), 10);
    assert_eq!(bits.count_zeros(&src), 6);
    let bits = BitSlice::<Lsb0, u8>::from_slice(&src).unwrap();
    assert_eq!(bits.count_ones(&src), 10);
    assert_eq!(bits.count_zeros(&src), 6);

    let src = [0xF0F0_F0F0u32, 0x0000_FFFF, 0xFFFF_0000];
    let bits = BitSlice::<Lsb0, u32>::from_slice(&src).unwrap();
    for start in 0..96usize {
        for end in start..=96usize {
            let part = bits.range(start, end).unwrap();
            let mut ones = 0;
            for index in 0..part.len() {
                if part.get(&src, index).unwrap() {
                    ones += 1;
                }
            }
            assert_eq!(part.count_ones(&src), ones);
            assert_eq!(part.count_zeros(&src), end - start - ones);
            assert_eq!(part.all(&src), ones == end - start);
            assert_eq!(part.any(&src), ones > 0);
        }
    }
}

#[test]
fn set_all_fills_only_the_view() {
    let mut src = [0u8];
    let bits = BitSlice::<Msb0, u8>::from_slice(&src).unwrap();
    bits.range(2, 6).unwrap().set_all(&mut src, true);
    assert_eq!(src, [0b0011_1100]);
    bits.range(3, 5).unwrap().set_all(&mut src, false);
    assert_eq!(src, [0b0010_0100]);
    bits.range(0, 1).unwrap().set_all(&mut src, true);
    assert_eq!(src, [0b1010_0100]);

    let mut src = [0u16; 4];
    let bits = BitSlice::<Lsb0, u16>::from_slice(&src).unwrap();
    bits.range(12, 52).unwrap().set_all(&mut src, true);
    assert_eq!(src, [0xF000, 0xFFFF, 0xFFFF, 0x000F]);
    bits.range(16, 48).unwrap().set_all(&mut src, false);
    assert_eq!(src, [0xF000, 0, 0, 0x000F]);
    bits.range(16, 50).unwrap().set_all(&mut src, true);
    assert_eq!(src, [0xF000, 0xFFFF, 0xFFFF, 0x000F]);
    bits.range(14, 48).unwrap().set_all(&mut src, false);
    assert_eq!(src, [0x3000, 0, 0, 0x000F]);
    bits.range(20, 20).unwrap().set_all(&mut src, true);
    assert_eq!(src, [0x3000, 0, 0, 0x000F]);
}

#[test]
fn ranges_and_splits() {
    let src = [0b1010_0100u8, 0xFF];
    let bits = BitSlice::<Msb0, u8>::from_slice(&src).unwrap();
    assert!(bits.range(3, 2).is_none());
    assert!(bits.range(0, 17).is_none());
    assert!(bits.split_at(17).is_none());
    let (left, right) = bits.split_at(6).unwrap();
    assert_eq!((left.len(), right.len()), (6, 10));
    assert_eq!(left.get(&src, 5), Ok(true));
    assert_eq!(right.get(&src, 0), Ok(false));
    assert_eq!(right.get(&src, 2), Ok(true));
    let (none, whole) = bits.split_at(0).unwrap();
    assert_eq!((none.len(), whole.len()), (0, 16));
    let (whole, none) = bits.split_at(16).unwrap();
    assert_eq!((whole.len(), none.len()), (16, 0));
    assert!(none.fits(&src));

    let inner = right.range(3, 9).unwrap();
    assert_eq!(inner.bitptr().pointer(), 1);
    assert_eq!(inner.bitptr().head().get(), 1);
    assert_eq!(inner.len(), 6);
}

#[test]
fn halves_of_a_split_share_an_element_and_keep_apart() {
    let mut src = [0u8; 3];
    let bits = BitSlice::<Msb0, u8>::from_slice(&src).unwrap();
    let (a, rest) = bits.split_at(2).unwrap();
    let (b, rest) = rest.split_at(3).unwrap();
    a.set(&mut src, 0, true).unwrap();
    b.set(&mut src, 0, true).unwrap();
    rest.set(&mut src, 0, true).unwrap();
    assert_eq!(src[0], 0b1010_0100);

    let (left, right) = bits.split_at(12).unwrap();
    left.set_all(&mut src, true);
    assert!(right.not_any(&src));
    right.set_all(&mut src, true);
    left.set_all(&mut src, false);
    assert!(right.all(&src));
    assert_eq!(src, [0, 0x0F, 0xFF]);
}

#[test]
fn swap_and_for_each() {
    let mut src = [0b0000_0001u8];
    let bits = BitSlice::<Lsb0, u8>::from_slice(&src).unwrap();
    bits.swap(&mut src, 0, 7).unwrap();
    assert_eq!(src, [0b1000_0000]);
    assert_eq!(bits.swap(&mut src, 8, 9), Err(IndexError { index: 8, len: 8 }));
    assert_eq!(bits.swap(&mut src, 1, 9), Err(IndexError { index: 9, len: 8 }));
    assert_eq!(src, [0b1000_0000]);

    let mut src = [0u8];
    let bits = BitSlice::<Msb0, u8>::from_slice(&src).unwrap();
    bits.for_each(&mut src, |index, _bit| index % 3 == 0);
    assert_eq!(src, [0b1001_0010]);
    bits.range(1, 7).unwrap().for_each(&mut src, |_index, bit| !bit);
    assert_eq!(src, [0b1110_1100]);
}

#[test]
fn body_and_edges() {
    let mut src = [1u8, 2, 3, 4];
    let bits = BitSlice::<Lsb0, u8>::from_slice(&src).unwrap();
    assert_eq!(bits.as_slice(&src), &[1, 2, 3, 4]);
    let part = bits.range(4, 28).unwrap();
    assert_eq!(part.as_slice(&src), &[2, 3]);
    assert_eq!(part.as_aliased_slice(&src), &[1, 2, 3, 4]);
    assert_eq!(bits.range(0, 12).unwrap().as_slice(&src), &[1]);
    assert_eq!(bits.range(12, 32).unwrap().as_slice(&src), &[3, 4]);
    assert_eq!(bits.range(9, 15).unwrap().as_slice(&src), &[0u8; 0]);
    assert_eq!(bits.range(9, 15).unwrap().as_aliased_slice(&src), &[2]);
    for elem in part.as_mut_slice(&mut src) {
        *elem |= 0x40;
    }
    assert_eq!(src, [1, 0x42, 0x43, 4]);
}

#[test]
fn bit_domains() {
    let src = [0u8; 4];
    let bits = BitSlice::<Lsb0, u8>::from_slice(&src).unwrap();
    match bits.range(4, 28).unwrap().bit_domain() {
        BitDomain::Region { head, body, tail } => {
            assert_eq!((head.len(), body.len(), tail.len()), (4, 16, 4));
            assert!(body.domain().is_spanning());
            assert_eq!(body.bitptr().pointer(), 1);
            assert_eq!(tail.bitptr().pointer(), 3);
        },
        BitDomain::Enclave { .. } => panic!("a view over four elements is a region"),
    }
    match bits.range(9, 15).unwrap().bit_domain() {
        BitDomain::Enclave { body } => assert_eq!(body.len(), 6),
        BitDomain::Region { .. } => panic!("a view inside one element is an enclave"),
    }
    match bits.range(9, 16).unwrap().bit_domain() {
        BitDomain::Region { head, body, tail } => {
            assert_eq!((head.len(), body.len(), tail.len()), (7, 0, 0));
        },
        BitDomain::Enclave { .. } => panic!("a view that reaches an end of its element is a region"),
    }
    match bits.range(8, 15).unwrap().bit_domain() {
        BitDomain::Region { head, body, tail } => {
            assert_eq!((head.len(), body.len(), tail.len()), (0, 0, 7));
        },
        BitDomain::Enclave { .. } => panic!("a view that reaches an end of its element is a region"),
    }
    match bits.bit_domain() {
        BitDomain::Region { head, body, tail } => {
            assert_eq!((head.len(), body.len(), tail.len()), (0, 32, 0));
        },
        BitDomain::Enclave { .. } => panic!("a view of whole elements is a region"),
    }
}

#[test]
fn data_as_bits() {
    let elem = 8u8;
    let bits = elem.bits::<Msb0>().unwrap();
    assert_eq!(bits.len(), 8);
    assert_eq!(bits.get(core::slice::from_ref(&elem), 4), Ok(true));

    let array = [0u16, 1];
    let bits = array.bits::<Lsb0>().unwrap();
    assert_eq!(bits.len(), 32);
    assert_eq!(bits.get(&array, 16), Ok(true));

    let slice: &[u32] = &[0, 0, 0x8000_0000];
    let bits = slice.bits::<Msb0>().unwrap();
    assert_eq!(bits.len(), 96);
    assert_eq!(bits.get(slice, 64), Ok(true));

    let none: [u64; 0] = [];
    assert_eq!(none.bits::<Lsb0>().unwrap().len(), 0);
    let _ = BitPtrError::TooManyBits;
}

#[test]
fn native_words_are_elements() {
    let width = usize::BITS as usize;
    let mut words = [0usize; 3];
    let bits = BitSlice::<Local, usize>::from_slice(&words).unwrap();
    assert_eq!(bits.len(), 3 * width);
    let part = bits.range(width - 3, 2 * width + 5).unwrap();
    assert!(part.domain().is_major());
    part.set_all(&mut words, true);
    assert_eq!(words, [7usize << (width - 3), usize::MAX, 0b1_1111]);
    assert_eq!(part.count_ones(&words), width + 8);
    assert_eq!(bits.count_zeros(&words), 2 * width - 8);
    bits.set(&mut words, 0, true).unwrap();
    assert_eq!(words[0] & 1, 1);
    assert_eq!(1usize.bits::<Lsb0>().unwrap().len(), width);
}
