use bitvec::index::{BitIdx, BitTail};
use bitvec::mem::{get, BitMemory};
use bitvec::order::{derived_mask, BitOrder, Lsb0, Msb0};

fn msb<T: BitMemory>(index: u8) -> u8 {
    Msb0::at::<T>(BitIdx::new(index).unwrap()).get()
}

fn lsb<T: BitMemory>(index: u8) -> u8 {
    Lsb0::at::<T>(BitIdx::new(index).unwrap()).get()
}

#[test]
fn be_u8_range() {
    for index in 0..8u8 {
        assert_eq!(msb::<u8>(index), 7 - index);
    }
    assert_eq!(msb::<u8>(0), 7);
    assert_eq!(msb::<u8>(7), 0);
}

#[test]
fn be_u16_range() {
    for index in 0..16u8 {
        assert_eq!(msb::<u16>(index), 15 - index);
    }
    assert_eq!(msb::<u16>(0), 15);
    assert_eq!(msb::<u16>(15), 0);
}

#[test]
fn be_u32_range() {
    for index in 0..32u8 {
        assert_eq!(msb::<u32>(index), 31 - index);
    }
    assert_eq!(msb::<u32>(0), 31);
    assert_eq!(msb::<u32>(31), 0);
}

#[test]
fn be_u64_range() {
    for index in 0..64u8 {
        assert_eq!(msb::<u64>(index), 63 - index);
    }
    assert_eq!(msb::<u64>(0), 63);
    assert_eq!(msb::<u64>(63), 0);
}

#[test]
fn le_u8_range() {
    for index in 0..8u8 {
        assert_eq!(lsb::<u8>(index), index);
    }
}

#[test]
fn le_u16_range() {
    for index in 0..16u8 {
        assert_eq!(lsb::<u16>(index), index);
    }
}

#[test]
fn le_u32_range() {
    for index in 0..32u8 {
        assert_eq!(lsb::<u32>(index), index);
    }
}

#[test]
fn le_u64_range() {
    for index in 0..64u8 {
        assert_eq!(lsb::<u64>(index), index);
    }
}

#[test]
fn indices_out_of_range_are_refused() {
    assert!(BitIdx::<u8>::new(8).is_none());
    assert!(BitIdx::<u16>::new(16).is_none());
    assert!(BitIdx::<u32>::new(32).is_none());
    assert!(BitIdx::<u64>::new(64).is_none());
    assert!(BitTail::<u8>::new(8).is_some());
    assert!(BitTail::<u8>::new(9).is_none());
    assert_eq!(BitTail::<u32>::end().get(), 32);
}

#[test]
fn select_is_a_one_bit_mask() {
    assert_eq!(Lsb0::select::<u8>(BitIdx::new(0).unwrap()), 0b0000_0001);
    assert_eq!(Lsb0::select::<u8>(BitIdx::new(5).unwrap()), 0b0010_0000);
    assert_eq!(Msb0::select::<u8>(BitIdx::new(0).unwrap()), 0b1000_0000);
    assert_eq!(Msb0::select::<u8>(BitIdx::new(5).unwrap()), 0b0000_0100);
    assert_eq!(Msb0::select::<u64>(BitIdx::new(0).unwrap()), 1u64 << 63);
    assert_eq!(Lsb0::select::<u64>(BitIdx::new(63).unwrap()), 1u64 << 63);
}

#[test]
fn masks_cover_the_indices_between_the_ends() {
    let idx = |n: u8| BitIdx::<u8>::new(n);
    let tail = |n: u8| BitTail::<u8>::new(n);
    assert_eq!(Lsb0::mask::<u8>(None, None), 0xFF);
    assert_eq!(Msb0::mask::<u8>(None, None), 0xFF);
    assert_eq!(Lsb0::mask::<u8>(idx(2), tail(5)), 0b0001_1100);
    assert_eq!(Msb0::mask::<u8>(idx(2), tail(5)), 0b0011_1000);
    assert_eq!(Lsb0::mask::<u8>(idx(3), None), 0b1111_1000);
    assert_eq!(Msb0::mask::<u8>(idx(3), None), 0b0001_1111);
    assert_eq!(Lsb0::mask::<u8>(None, tail(3)), 0b0000_0111);
    assert_eq!(Msb0::mask::<u8>(None, tail(3)), 0b1110_0000);
    assert_eq!(Lsb0::mask::<u8>(idx(4), tail(4)), 0);
    assert_eq!(Msb0::mask::<u8>(idx(5), tail(2)), 0);
    assert_eq!(Lsb0::mask::<u64>(None, None), u64::MAX);
    assert_eq!(Msb0::mask::<u32>(None, BitTail::<u32>::new(1)), 0x8000_0000);
}

#[test]
fn derived_mask_agrees_with_the_closed_forms() {
    for lo in 0..=8u8 {
        for hi in 0..=8u8 {
            let from = BitIdx::<u8>::new(lo);
            let upto = BitTail::<u8>::new(hi);
            let from = if lo == 8 { None } else { from };
            assert_eq!(derived_mask::<Lsb0, u8>(from, upto), Lsb0::mask::<u8>(from, upto));
            assert_eq!(derived_mask::<Msb0, u8>(from, upto), Msb0::mask::<u8>(from, upto));
        }
    }
    assert_eq!(derived_mask::<Lsb0, u64>(None, None), u64::MAX);
    assert_eq!(derived_mask::<Msb0, u32>(BitIdx::new(4), BitTail::new(12)), 0x0FF0_0000);
    assert_eq!(derived_mask::<Lsb0, u32>(BitIdx::new(4), BitTail::new(12)), 0x0000_0FF0);
}

#[test]
fn element_get_and_set() {
    let mut elem = 0u8;
    bitvec::mem::set::<Msb0, u8>(&mut elem, BitIdx::new(3).unwrap(), true);
    assert_eq!(elem, 0b0001_0000);
    assert!(get::<Msb0, u8>(&elem, BitIdx::new(3).unwrap()));
    assert!(!get::<Lsb0, u8>(&elem, BitIdx::new(3).unwrap()));
    bitvec::mem::set::<Lsb0, u8>(&mut elem, BitIdx::new(3).unwrap(), true);
    assert_eq!(elem, 0b0001_1000);
    bitvec::mem::set::<Msb0, u8>(&mut elem, BitIdx::new(3).unwrap(), false);
    assert_eq!(elem, 0b0000_1000);
}

#[test]
fn element_constants() {
    assert_eq!((u8::bits(), u8::indx(), u8::mask()), (8, 3, 7));
    assert_eq!((u16::bits(), u16::indx(), u16::mask()), (16, 4, 15));
    assert_eq!((u32::bits(), u32::indx(), u32::mask()), (32, 5, 31));
    assert_eq!((u64::bits(), u64::indx(), u64::mask()), (64, 6, 63));
    assert_eq!((<u8 as BitMemory>::zero(), <u8 as BitMemory>::one(), <u8 as BitMemory>::all()), (0, 1, 0xFF));
    assert_eq!(<u64 as BitMemory>::all(), u64::MAX);
    assert_eq!(<u16 as BitMemory>::from_u64(0x12345), 0x2345);
    assert_eq!(bitvec::mem::elts::<u8>(0), 0);
    assert_eq!(bitvec::mem::elts::<u8>(1), 1);
    assert_eq!(bitvec::mem::elts::<u8>(8), 1);
    assert_eq!(bitvec::mem::elts::<u8>(9), 2);
    assert_eq!(bitvec::mem::elts::<u32>(64), 2);
    assert_eq!(bitvec::mem::elts::<u64>(usize::MAX), usize::MAX / 64 + 1);
}
