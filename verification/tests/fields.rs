use bitvec::field::{mask_for, resize, BitField, FieldError};
use bitvec::order::{Lsb0, Msb0};
use bitvec::slice::BitSlice;

#[test]
fn empty() {
    let mem: [u64; 0] = [];
    assert!(BitSlice::<Msb0, u64>::empty().load(&mem).is_none());
    assert!(BitSlice::<Lsb0, u64>::empty().load(&mem).is_none());

    let mut mem: [u32; 0] = [];
    assert_eq!(BitSlice::<Msb0, u32>::empty().store(&mut mem, 0), Err(FieldError::Empty));
    assert_eq!(BitSlice::<Lsb0, u32>::empty().store(&mut mem, 0), Err(FieldError::Empty));
}

#[test]
fn bitfields_minor() {
    let mut base = [0u8];
    let bits = BitSlice::<Lsb0, u8>::from_slice(&base).unwrap();
    let part = bits.range(3, 7).unwrap();

    part.store(&mut base, 255).unwrap();
    assert_eq!(part.load(&base), Some(15));

    part.store(&mut base, 9).unwrap();
    assert_eq!(part.load(&base), Some(9));

    assert_eq!(bits.as_slice(&base), &[0x48]);

    bits.store(&mut base, 0).unwrap();
    let bits = BitSlice::<Msb0, u8>::from_slice(&base).unwrap();
    let part = bits.range(3, 7).unwrap();

    part.store(&mut base, 255).unwrap();
    assert_eq!(part.load(&base), Some(15));

    part.store(&mut base, 6).unwrap();
    assert_eq!(part.load(&base), Some(6));
}

#[test]
fn bitfields_major() {
    let mut base: [u8; 2] = [0, 0];
    let bits = BitSlice::<Lsb0, u8>::from_slice(&base).unwrap();
    let part = bits.range(5, 11).unwrap();

    part.store(&mut base, 255).unwrap();
    assert_eq!(part.load(&base), Some(63));
    assert_eq!(bits.as_slice(&base), &[0xE0, 0x07]);

    let bits = BitSlice::<Msb0, u8>::from_slice(&base).unwrap();
    let part = bits.range(5, 11).unwrap();

    part.store(&mut base, 63).unwrap();
    assert_eq!(part.load(&base), Some(63));
    assert_eq!(bits.as_slice(&base), &[0xE7, 0xE7]);
    bits.range(0, 3).unwrap().store(&mut base, 0).unwrap();
    assert_eq!(bits.as_slice(&base), &[0x07, 0xE7]);
}

#[test]
fn bitfields_partial_head() {
    let mut base = [0u8];
    let bits = BitSlice::<Lsb0, u8>::from_slice(&base).unwrap();
    let part = bits.range(3, 8).unwrap();

    part.store(&mut base, 255).unwrap();
    assert_eq!(part.load(&base), Some(31));
    assert_eq!(bits.as_slice(&base), &[0xF8]);

    bits.store(&mut base, 0).unwrap();
    let bits = BitSlice::<Msb0, u8>::from_slice(&base).unwrap();
    let part = bits.range(3, 8).unwrap();

    part.store(&mut base, 255).unwrap();
    assert_eq!(part.load(&base), Some(31));
    assert_eq!(bits.as_slice(&base), &[0x1F]);
}

#[test]
fn bitfields_partial_tail() {
    let mut base = [0u8];
    let bits = BitSlice::<Lsb0, u8>::from_slice(&base).unwrap();
    let part = bits.range(0, 6).unwrap();

    part.store(&mut base, 255).unwrap();
    assert_eq!(part.load(&base), Some(63));
    assert_eq!(bits.as_slice(&base), &[0x3F]);

    bits.store(&mut base, 0).unwrap();
    let bits = BitSlice::<Msb0, u8>::from_slice(&base).unwrap();
    let part = bits.range(0, 6).unwrap();

    part.store(&mut base, 255).unwrap();
    assert_eq!(part.load(&base), Some(63));
    assert_eq!(bits.as_slice(&base), &[0xFC]);
}

#[test]
fn bitfields_spanning() {
    let mut base = [0u64];

    let bits = BitSlice::<Lsb0, u64>::from_slice(&base).unwrap();
    bits.store(&mut base, 0x01234567_89abcdef).unwrap();
    assert_eq!(bits.load(&base), Some(0x01234567_89abcdef));

    let bits = BitSlice::<Msb0, u64>::from_slice(&base).unwrap();
    bits.store(&mut base, 0x01234567_89abcdef).unwrap();
    assert_eq!(bits.load(&base), Some(0x01234567_89abcdef));
}

#[test]
fn check_mask() {
    for (n, mask) in &[(0, 0x00), (1, 0x01), (7, 0x7F), (8, 0xFF)][..] {
        assert_eq!(mask_for::<u8>(*n), *mask);
    }

    for (n, mask) in &[(0, 0x0000), (1, 0x0001), (15, 0x7FFF), (16, 0xFFFF)][..] {
        assert_eq!(mask_for::<u16>(*n), *mask);
    }

    for (n, mask) in &[(0, 0x0000_0000), (1, 0x0000_0001), (31, 0x7FFF_FFFF), (32, 0xFFFF_FFFF)][..]
    {
        assert_eq!(mask_for::<u32>(*n), *mask);
    }

    for (n, mask) in &[
        (0, 0x0000_0000_0000_0000),
        (1, 0x0000_0000_0000_0001),
        (63, 0x7FFF_FFFF_FFFF_FFFF),
        (64, 0xFFFF_FFFF_FFFF_FFFF),
    ][..]
    {
        assert_eq!(mask_for::<u64>(*n), *mask);
    }
}

#[test]
fn mask_for_saturates_at_the_width() {
    assert_eq!(mask_for::<u8>(9), 0xFF);
    assert_eq!(mask_for::<u8>(256), 0xFF);
    assert_eq!(mask_for::<u16>(usize::MAX), 0xFFFF);
}

#[test]
fn check_resize() {
    assert_eq!(resize::<u8, u8>(0xA5u8), 0xA5u8);
    assert_eq!(resize::<u8, u16>(0xA5u8), 0xA5u16);
    assert_eq!(resize::<u8, u32>(0xA5u8), 0xA5u32);

    assert_eq!(resize::<u16, u8>(0x1234u16), 0x34u8);
    assert_eq!(resize::<u16, u16>(0x1234u16), 0x1234u16);
    assert_eq!(resize::<u16, u32>(0x1234u16), 0x1234u32);

    assert_eq!(resize::<u32, u8>(0x1234_5678u32), 0x78u8);
    assert_eq!(resize::<u32, u16>(0x1234_5678u32), 0x5678u16);
    assert_eq!(resize::<u32, u32>(0x1234_5678u32), 0x1234_5678u32);

    assert_eq!(resize::<u8, u64>(0xA5u8), 0xA5u64);
    assert_eq!(resize::<u16, u64>(0x1234u16), 0x1234u64);
    assert_eq!(resize::<u32, u64>(0x1234_5678u32), 0x1234_5678u64);

    assert_eq!(resize::<u64, u8>(0x0123_4567_89AB_CDEFu64), 0xEFu8);
    assert_eq!(resize::<u64, u16>(0x0123_4567_89AB_CDEFu64), 0xCDEFu16);
    assert_eq!(resize::<u64, u32>(0x0123_4567_89AB_CDEFu64), 0x89AB_CDEFu32);
    assert_eq!(resize::<u64, u64>(0x0123_4567_89AB_CDEFu64), 0x0123_4567_89AB_CDEFu64);
}

#[test]
fn lsb0() {
    let mut bytes = [0u8; 16];
    let bits = BitSlice::<Lsb0, u8>::from_slice(&bytes).unwrap();
    let part = bits.range(1, 5).unwrap();

    part.store(&mut bytes, 0x0Au8).unwrap();
    assert_eq!(part.load(&bytes), Some(0x0Au8));
    assert_eq!(bits.as_slice(&bytes)[0], 0b000_1010_0u8);

    part.store(&mut bytes, 0x05u8).unwrap();
    assert_eq!(part.load(&bytes), Some(0x05u8));
    assert_eq!(bits.as_slice(&bytes)[0], 0b000_0101_0u8);

    part.store(&mut bytes, 0u8).unwrap();
    assert_eq!(bytes, [0u8; 16]);

    let mut shorts = [0u16; 8];
    let bits = BitSlice::<Lsb0, u16>::from_slice(&shorts).unwrap();
    let part = bits.range(3, 15).unwrap();

    part.store(&mut shorts, 0x0123u16).unwrap();
    assert_eq!(part.load(&shorts), Some(0x0123u16));
    assert_eq!(bits.as_slice(&shorts)[0], 0b0_0001_0010_0011_000u16);

    let mut ints = [0u32; 4];
    let bits = BitSlice::<Lsb0, u32>::from_slice(&ints).unwrap();
    let part = bits.range(1, 29).unwrap();

    part.store(&mut ints, 0x0123_4567u32).unwrap();
    assert_eq!(part.load(&ints), Some(0x0123_4567u32));
    assert_eq!(bits.as_slice(&ints)[0], 0b000_0001_0010_0011_0100_0101_0110_0111_0u32);
}

#[test]
fn msb0() {
    let mut bytes = [0u8; 16];
    let bits = BitSlice::<Msb0, u8>::from_slice(&bytes).unwrap();
    let part = bits.range(1, 5).unwrap();

    part.store(&mut bytes, 0x0Au8).unwrap();
    assert_eq!(part.load(&bytes), Some(0x0Au8));
    assert_eq!(bits.as_slice(&bytes)[0], 0b0_1010_000u8);

    part.store(&mut bytes, 0x05u8).unwrap();
    assert_eq!(part.load(&bytes), Some(0x05u8));
    assert_eq!(bits.as_slice(&bytes)[0], 0b0_0101_000u8);

    part.store(&mut bytes, 0u8).unwrap();
    assert_eq!(bytes, [0u8; 16]);

    let mut shorts = [0u16; 8];
    let bits = BitSlice::<Msb0, u16>::from_slice(&shorts).unwrap();
    let part = bits.range(3, 15).unwrap();

    part.store(&mut shorts, 0x0123u16).unwrap();
    assert_eq!(part.load(&shorts), Some(0x0123u16));
    assert_eq!(bits.as_slice(&shorts)[0], 0b000_0001_0010_0011_0u16);

    let mut ints = [0u32; 4];
    let bits = BitSlice::<Msb0, u32>::from_slice(&ints).unwrap();
    let part = bits.range(1, 29).unwrap();

    part.store(&mut ints, 0x0123_4567u32).unwrap();
    assert_eq!(part.load(&ints), Some(0x0123_4567u32));
    assert_eq!(bits.as_slice(&ints)[0], 0b0_0001_0010_0011_0100_0101_0110_0111_000u32);
}

#[test]
fn store_then_load_in_a_zeroed_byte_array() {
    let mut bytes = [0u8; 16];
    let bits = BitSlice::<Lsb0, u8>::from_slice(&bytes).unwrap();
    let part = bits.range(1, 5).unwrap();
    part.store(&mut bytes, 0x0A).unwrap();
    assert_eq!(part.load(&bytes), Some(0x0A));
    assert_eq!(bytes[0], 0b0001_0100);
    assert_eq!(&bytes[1..], &[0u8; 15]);
}

#[test]
fn store_across_an_element_boundary() {
    let mut shorts = [0u16; 2];
    let bits = BitSlice::<Lsb0, u16>::from_slice(&shorts).unwrap();
    let part = bits.range(5, 19).unwrap();
    part.store(&mut shorts, 0x1234).unwrap();
    assert_eq!(part.load(&shorts), Some(0x1234));
    let first = shorts[0].to_le_bytes();
    let second = shorts[1].to_le_bytes();
    assert_eq!([first[0], first[1], second[0]], [0b100_00000, 0b010_0011_0, 0b00000_01_0]);
}

#[test]
fn store_across_an_element_boundary_descending() {
    let mut bytes = [0xFFu8, 0xFF];
    let bits = BitSlice::<Msb0, u8>::from_slice(&bytes).unwrap();
    let part = bits.range(6, 11).unwrap();
    part.store(&mut bytes, 0b10010).unwrap();
    assert_eq!(bytes, [0b1111_1110, 0b0101_1111]);
    assert_eq!(part.load(&bytes), Some(0b10010));
}

#[test]
fn store_keeps_the_bits_outside_the_view() {
    let mut bytes = [0xFFu8, 0xFF, 0xFF];
    let bits = BitSlice::<Lsb0, u8>::from_slice(&bytes).unwrap();
    let part = bits.range(10, 14).unwrap();
    part.store(&mut bytes, 0).unwrap();
    assert_eq!(bytes, [0xFF, 0b1100_0011, 0xFF]);

    let part = bits.range(6, 10).unwrap();
    part.store(&mut bytes, 0b0110).unwrap();
    assert_eq!(bytes, [0b1011_1111, 0b1100_0001, 0xFF]);
}

#[test]
fn load_and_store_round_trip_masks_the_value() {
    for len in 1..=16usize {
        for start in 0..16usize {
            let mut shorts = [0xAAAAu16, 0x5555, 0xAAAA];
            let bits = BitSlice::<Lsb0, u16>::from_slice(&shorts).unwrap();
            let part = bits.range(start, start + len).unwrap();
            part.store(&mut shorts, 0xBEEF).unwrap();
            assert_eq!(part.load(&shorts), Some(0xBEEF & mask_for::<u16>(len)));

            let mut shorts = [0xAAAAu16, 0x5555, 0xAAAA];
            let bits = BitSlice::<Msb0, u16>::from_slice(&shorts).unwrap();
            let part = bits.range(start, start + len).unwrap();
            part.store(&mut shorts, 0xBEEF).unwrap();
            assert_eq!(part.load(&shorts), Some(0xBEEF & mask_for::<u16>(len)));
        }
    }
}

#[test]
fn load_and_store_fail_on_a_view_wider_than_an_element() {
    let mut bytes = [0u8; 2];
    let bits = BitSlice::<Lsb0, u8>::from_slice(&bytes).unwrap();
    assert_eq!(bits.load(&bytes), None);
    assert_eq!(bits.store(&mut bytes, 0xFF), Err(FieldError::TooWide));
    assert_eq!(bytes, [0, 0]);
    let bits = BitSlice::<Msb0, u8>::from_slice(&bytes).unwrap();
    assert_eq!(bits.range(0, 9).unwrap().load(&bytes), None);
    assert_eq!(bits.range(0, 9).unwrap().store(&mut bytes, 0xFF), Err(FieldError::TooWide));
    assert_eq!(bits.range(4, 4).unwrap().store(&mut bytes, 0xFF), Err(FieldError::Empty));
    assert_eq!(bytes, [0, 0]);
}

#[test]
fn load_reads_in_memory_order() {
    let base = [0xABCDu16];
    let bits = BitSlice::<Lsb0, u16>::from_slice(&base).unwrap();
    assert_eq!(bits.range(0, 12).unwrap().load(&base), Some(0x0BCDu16));
    let bits = BitSlice::<Msb0, u16>::from_slice(&base).unwrap();
    assert_eq!(bits.range(0, 12).unwrap().load(&base), Some(0x0ABCu16));

    let mut base = [0u16];
    let bits = BitSlice::<Lsb0, u16>::from_slice(&base).unwrap();
    bits.range(0, 12).unwrap().store(&mut base, 0xFABC).unwrap();
    assert_eq!(base, [0x0ABC]);
    let mut base = [0u16];
    let bits = BitSlice::<Msb0, u16>::from_slice(&base).unwrap();
    bits.range(0, 12).unwrap().store(&mut base, 0xFABC).unwrap();
    assert_eq!(base, [0xABC0]);
}

#[test]
fn fields_in_native_words() {
    let width = usize::BITS as usize;
    let mut words = [0usize; 2];
    let bits = BitSlice::<Lsb0, usize>::from_slice(&words).unwrap();
    let part = bits.range(width - 4, width + 4).unwrap();
    part.store(&mut words, 0xA5).unwrap();
    assert_eq!(words, [5usize << (width - 4), 0xA]);
    assert_eq!(part.load(&words), Some(0xA5));
    assert_eq!(mask_for::<usize>(width), usize::MAX);
    assert_eq!(mask_for::<usize>(3), 7);
    assert_eq!(resize::<usize, u8>(0x1234), 0x34);
    assert_eq!(resize::<u64, usize>(u64::MAX), usize::MAX);
}
