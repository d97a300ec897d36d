use bitvec::adder::rca1;
use bitvec::order::{Lsb0, Msb0};
use bitvec::slice::BitSlice;

#[test]
fn full_adder() {
    assert_eq!(rca1(false, false, false), (false, false));
    assert_eq!(rca1(true, false, false), (true, false));
    assert_eq!(rca1(false, true, false), (true, false));
    assert_eq!(rca1(false, false, true), (true, false));
    assert_eq!(rca1(true, true, false), (false, true));
    assert_eq!(rca1(true, false, true), (false, true));
    assert_eq!(rca1(false, true, true), (false, true));
    assert_eq!(rca1(true, true, true), (true, true));
}

#[test]
fn add_with_carry_out() {
    let mut a = [0b0000_1010u8];
    let b = [0b0000_1100u8];
    let ab = BitSlice::<Lsb0, u8>::from_slice(&a).unwrap().range(0, 4).unwrap();
    let bb = BitSlice::<Lsb0, u8>::from_slice(&b).unwrap().range(0, 4).unwrap();
    let addend: Vec<bool> = (0..4).map(|index| bb.get(&b, index).unwrap()).collect();
    let carry = ab.add_assign_reverse(&mut a, &addend);
    assert!(carry);
    assert_eq!(a, [0b0000_0110u8]);
}

#[test]
fn add_a_shorter_and_a_longer_addend() {
    //  101111 + 0010__ = 100000 carry 1, first bit least significant
    let mut a = [0b1011_1100u8];
    let bits = BitSlice::<Msb0, u8>::from_slice(&a).unwrap().range(0, 6).unwrap();
    let carry = bits.add_assign_reverse(&mut a, &[false, false, true, false]);
    assert!(carry);
    assert_eq!(a, [0b1000_0000u8]);

    let mut a = [0b0000_0001u8, 0xFF];
    let bits = BitSlice::<Lsb0, u8>::from_slice(&a).unwrap().range(0, 3).unwrap();
    let carry = bits.add_assign_reverse(&mut a, &[true, true, false, true, true]);
    assert!(!carry);
    assert_eq!(a, [0b0000_0100u8, 0xFF]);

    let mut a = [0xFFu8];
    let bits = BitSlice::<Lsb0, u8>::from_slice(&a).unwrap().range(4, 4).unwrap();
    assert!(!bits.add_assign_reverse(&mut a, &[true]));
    assert_eq!(a, [0xFF]);
}

#[test]
fn add_agrees_with_integer_addition() {
    for x in 0..=255u16 {
        for y in [0u16, 1, 2, 77, 128, 200, 255] {
            let mut a = [x as u8];
            let bits = BitSlice::<Lsb0, u8>::from_slice(&a).unwrap();
            let addend: Vec<bool> = (0..8).map(|index| (y >> index) & 1 == 1).collect();
            let carry = bits.add_assign_reverse(&mut a, &addend);
            assert_eq!(a[0] as u16 + if carry { 256 } else { 0 }, x + y);
        }
    }
}
