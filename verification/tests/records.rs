use bitvec::order::{Lsb0, Msb0};
use bitvec::pointer::{BitPtrError, MAX_BITS};
use bitvec::record::{BitRecord, RecordError};
use bitvec::slice::BitSlice;

fn bits_of(record: &BitRecord<u8>) -> Vec<bool> {
    let view = record.view::<Msb0>().unwrap();
    (0..view.len()).map(|index| view.get(&record.data, index).unwrap()).collect()
}

#[test]
fn record_of_the_empty_view() {
    let mem: [u8; 0] = [];
    let record = BitSlice::<Msb0, u8>::empty().to_record(&mem);
    assert_eq!((record.head, record.bits, record.data.len()), (0, 0, 0));
    assert_eq!(record.view::<Msb0>().unwrap().len(), 0);
}

#[test]
fn small() {
    let mem = [0b1111_1000u8];
    let bits = BitSlice::<Msb0, u8>::from_slice(&mem).unwrap().range(1, 5).unwrap();
    let record = bits.to_record(&mem);
    assert_eq!((record.head, record.bits, &record.data[..]), (1, 4, &[0b1111_1000u8][..]));

    let mem = [0b00001111_11111111u16];
    let bits = BitSlice::<Lsb0, u16>::from_slice(&mem).unwrap().range(0, 12).unwrap();
    let record = bits.to_record(&mem);
    assert_eq!((record.head, record.bits, &record.data[..]), (0, 12, &[0b00001111_11111111u16][..]));

    let mem = [0b11_11111111u32];
    let bits = BitSlice::<Lsb0, u32>::from_slice(&mem).unwrap().range(0, 10).unwrap();
    let record = bits.to_record(&mem);
    assert_eq!((record.head, record.bits, &record.data[..]), (0, 10, &[0x00_00_03_FFu32][..]));
}

#[test]
fn wide() {
    let mem = [0u8, !0];
    let bits = BitSlice::<Lsb0, u8>::from_slice(&mem).unwrap().range(1, 15).unwrap();
    let record = bits.to_record(&mem);
    assert_eq!((record.head, record.bits, &record.data[..]), (1, 14, &[0u8, !0][..]));
}

#[test]
fn record_takes_only_the_touched_elements() {
    let mem = [1u8, 2, 3, 4, 5];
    let bits = BitSlice::<Lsb0, u8>::from_slice(&mem).unwrap().range(12, 30).unwrap();
    let record = bits.to_record(&mem);
    assert_eq!((record.head, record.bits, &record.data[..]), (4, 18, &[2u8, 3, 4][..]));
    let back = record.view::<Lsb0>().unwrap();
    for index in 0..18 {
        assert_eq!(back.get(&record.data, index), bits.get(&mem, index));
    }
}

#[test]
fn deser() {
    let expected = vec![false, true, true, false, true, false];
    //  the bits outside the view do not matter
    for data in [0b0110_1000u8, 0b0110_1001, 0b0110_1010, 0b0110_1011] {
        let record = BitRecord { head: 0, bits: 6, data: vec![data] };
        assert_eq!(bits_of(&record), expected);
    }
}

#[test]
fn records_that_describe_no_view() {
    let record = BitRecord { head: 8, bits: 1, data: vec![0u8] };
    assert_eq!(record.view::<Msb0>().err(), Some(RecordError::Pointer(BitPtrError::HeadOutOfRange)));
    let record = BitRecord { head: 0, bits: MAX_BITS as u64 + 1, data: vec![0u8] };
    assert_eq!(record.view::<Msb0>().err(), Some(RecordError::Pointer(BitPtrError::TooManyBits)));
    let record = BitRecord { head: 9, bits: u64::MAX, data: vec![0u8] };
    assert_eq!(record.view::<Msb0>().err(), Some(RecordError::Pointer(BitPtrError::HeadOutOfRange)));
    let record = BitRecord { head: 7, bits: MAX_BITS as u64, data: vec![0u8] };
    assert_eq!(record.view::<Msb0>().err(), Some(RecordError::Pointer(BitPtrError::TooManyElements)));
    let record = BitRecord { head: 4, bits: 5, data: vec![0u8] };
    assert_eq!(
        record.view::<Msb0>().err(),
        Some(RecordError::WrongElementCount { expected: 2, found: 1 })
    );
    let record = BitRecord { head: 0, bits: 0, data: vec![0u8] };
    assert_eq!(
        record.view::<Msb0>().err(),
        Some(RecordError::WrongElementCount { expected: 0, found: 1 })
    );
    let record = BitRecord { head: 4, bits: 5, data: vec![0u8, 0] };
    assert!(record.view::<Msb0>().is_ok());
}
