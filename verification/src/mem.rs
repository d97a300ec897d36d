//! Memory elements: the unsigned integer types a view can be laid over.
use crate::bits::{
    bit, lemma_and_bits, lemma_bits_equal, lemma_const_bits, lemma_low_mask_bits, lemma_not_bits,
    lemma_or_bits, low_mask, supported_width,
};
use crate::index::{BitIdx, BitTail};
use crate::order::{spec_from, spec_upto, BitOrder};
use vstd::prelude::*;

verus! {

/// An unsigned integer type usable as a memory element.
///
/// Each element has a width in bits and a value, which is the element read
/// as a number.  All bit arithmetic in this crate is done on values, in
/// `u64`; [`BitMemory::to_u64`] and [`BitMemory::from_u64`] move between an
/// element and its value.
pub trait BitMemory: Copy + Sized {
    /// The width of the element in bits.
    spec fn width() -> int;

    /// The element read as a number.
    spec fn value(self) -> u64;

    /// The width is one of 8, 16, 32 and 64.
    proof fn lemma_width()
        ensures
            supported_width(Self::width()),
    ;

    /// A value has no bit at or above the width.
    proof fn lemma_value(self)
        ensures
            self.value() <= low_mask(Self::width()),
    ;

    /// Elements with the same value are the same element.
    proof fn lemma_same_value(a: Self, b: Self)
        requires
            a.value() == b.value(),
        ensures
            a == b,
    ;

    /// The width of the element in bits.
    fn bits() -> (w: u8)
        ensures
            w == Self::width(),
    ;

    /// The number of bits needed to index a bit in the element.
    fn indx() -> (n: u8)
        ensures
            n == index_bits(Self::width()),
    ;

    /// The greatest bit index in the element.
    fn mask() -> (m: u8)
        ensures
            m == Self::width() - 1,
    ;

    /// The element with no bit set.
    fn zero() -> (e: Self)
        ensures
            e.value() == 0,
    ;

    /// The element with only its least significant bit set.
    fn one() -> (e: Self)
        ensures
            e.value() == 1,
    ;

    /// The element with every bit set.
    fn all() -> (e: Self)
        ensures
            e.value() == low_mask(Self::width()),
    ;

    /// The value of the element.
    fn to_u64(self) -> (v: u64)
        ensures
            v == self.value(),
    ;

    /// The element whose value is the `width` low bits of `v`.
    fn from_u64(v: u64) -> (e: Self)
        ensures
            e.value() == v & low_mask(Self::width()),
    ;
}

/// The base-2 logarithm of a supported width.
pub open spec fn index_bits(w: int) -> int {
    if w == 8 {
        3
    } else if w == 16 {
        4
    } else if w == 32 {
        5
    } else {
        6
    }
}

/// The number of elements of width `w` needed to hold `bits` bits.
pub open spec fn spec_elts(bits: int, w: int) -> int {
    (bits + w - 1) / w
}

proof fn lemma_width_masks(v: u64)
    by (bit_vector)
    ensures
        ((1u64 << 8) - 1) as u64 == 0xffu64,
        ((1u64 << 16) - 1) as u64 == 0xffffu64,
        ((1u64 << 32) - 1) as u64 == 0xffff_ffffu64,
        v & 0xffu64 <= 0xffu64,
        v & 0xffffu64 <= 0xffffu64,
        v & 0xffff_ffffu64 <= 0xffff_ffffu64,
        v & 0xffff_ffff_ffff_ffffu64 == v,
{
}

/// Rounding the quotient up is adding one when there is a remainder.
pub proof fn lemma_spec_elts(bits: int, w: int)
    requires
        0 <= bits,
        supported_width(w),
    ensures
        spec_elts(bits, w) == bits / w + if bits % w != 0 {
            1int
        } else {
            0int
        },
        spec_elts(bits, w) * w >= bits,
        spec_elts(bits, w) * w < bits + w,
        spec_elts(bits, w) <= bits / 8 + 1,
{
    if w == 8 {
    } else if w == 16 {
    } else if w == 32 {
    } else {
    }
}

/// The number of elements of type `T` needed to hold `bits` bits.
pub fn elts<T: BitMemory>(bits: usize) -> (n: usize)
    ensures
        n == spec_elts(bits as int, T::width()),
{
    proof {
        T::lemma_width();
        lemma_spec_elts(bits as int, T::width());
    }
    let width: usize = T::bits() as usize;
    let rest: usize = if bits % width != 0 {
        1
    } else {
        0
    };
    bits / width + rest
}

/// The bit of `elem` at logical index `idx` under order `O`.
pub open spec fn elem_bit<O: BitOrder, T: BitMemory>(elem: T, idx: int) -> bool {
    bit(elem.value(), O::spec_at(idx, T::width()))
}

/// Reads the bit of `elem` at logical index `place` under order `O`.
pub fn get<O: BitOrder, T: BitMemory>(elem: &T, place: BitIdx<T>) -> (r: bool)
    ensures
        r == elem_bit::<O, T>(*elem, place.value()),
{
    let word: u64 = elem.to_u64();
    let sel: u64 = O::select::<T>(place).to_u64();
    proof {
        use_type_invariant(&place);
        T::lemma_width();
        O::lemma_bijection(T::width());
        let pos = O::spec_at(place.value(), T::width());
        lemma_and_bits(word, sel);
        lemma_const_bits();
        assert(bit(word & sel, pos) <==> bit(word, pos));
        if !bit(word, pos) {
            lemma_bits_equal(word & sel, 0);
        }
    }
    word & sel != 0
}

/// Writes `value` to the bit of `elem` at logical index `place` under order
/// `O`, and leaves every other bit of `elem` as it was.
pub fn set<O: BitOrder, T: BitMemory>(elem: &mut T, place: BitIdx<T>, value: bool)
    ensures
        forall|k: int|
            0 <= k < 64 ==> #[trigger] bit(final(elem).value(), k) == if k == O::spec_at(
                place.value(),
                T::width(),
            ) {
                value
            } else {
                bit(old(elem).value(), k)
            },
{
    let word: u64 = elem.to_u64();
    let sel: u64 = O::select::<T>(place).to_u64();
    let next: u64 = if value {
        word | sel
    } else {
        word & !sel
    };
    proof {
        use_type_invariant(&place);
        T::lemma_width();
        O::lemma_bijection(T::width());
        elem.lemma_value();
        crate::bits::lemma_bounded_bits(word, T::width());
        lemma_or_bits(word, sel);
        lemma_not_bits(sel);
        lemma_and_bits(word, !sel);
        lemma_low_mask_bits(T::width());
        lemma_and_bits(next, low_mask(T::width()));
    }
    *elem = T::from_u64(next);
}

/// Erases the bits of `elem` under `mask` and writes the bits of `new`
/// under `mask` in their place.  The bits of `elem` outside `mask` stay as
/// they were, so a neighbour's bits in the same element are never touched.
pub fn write_bits<T: BitMemory>(elem: T, mask: T, new: u64) -> (r: T)
    ensures
        forall|k: int|
            0 <= k < T::width() ==> #[trigger] bit(r.value(), k) == if bit(mask.value(), k) {
                bit(new, k)
            } else {
                bit(elem.value(), k)
            },
{
    let next: u64 = crate::bits::splice(elem.to_u64(), mask.to_u64(), new);
    proof {
        T::lemma_width();
        crate::bits::lemma_splice_bits(elem.value(), mask.value(), new);
        lemma_low_mask_bits(T::width());
        lemma_and_bits(next, low_mask(T::width()));
    }
    T::from_u64(next)
}

/// Whether every bit of `elem` at the logical indices from `lo` up to but
/// not including `hi` is set.
pub open spec fn spec_elem_all<O: BitOrder, T: BitMemory>(elem: T, lo: int, hi: int) -> bool {
    forall|i: int| lo <= i < hi && 0 <= i < T::width() ==> elem_bit::<O, T>(elem, i)
}

/// Whether some bit of `elem` at the logical indices from `lo` up to but
/// not including `hi` is set.
pub open spec fn spec_elem_any<O: BitOrder, T: BitMemory>(elem: T, lo: int, hi: int) -> bool {
    exists|i: int| lo <= i < hi && 0 <= i < T::width() && elem_bit::<O, T>(elem, i)
}

/// Whether every bit of `elem` from `from` up to `upto` is set.  The bits
/// of `elem` outside that range, which may be a neighbour's, are masked
/// away before the test.
pub fn masked_all<O: BitOrder, T: BitMemory>(
    elem: T,
    from: Option<BitIdx<T>>,
    upto: Option<BitTail<T>>,
) -> (r: bool)
    ensures
        r == spec_elem_all::<O, T>(elem, spec_from(from), spec_upto(upto)),
{
    let mask: T = O::mask::<T>(from, upto);
    let word: u64 = elem.to_u64();
    let live: u64 = mask.to_u64();
    proof {
        let w = T::width();
        T::lemma_width();
        O::lemma_bijection(w);
        mask.lemma_value();
        crate::bits::lemma_bounded_bits(live, w);
        lemma_and_bits(word, live);
        if word & live == live {
            assert forall|i: int|
                spec_from(from) <= i < spec_upto(upto) && 0 <= i < w implies elem_bit::<O, T>(
                elem,
                i,
            ) by {
                assert(bit(live, O::spec_at(i, w)));
                assert(bit(word & live, O::spec_at(i, w)));
            }
        } else {
            if spec_elem_all::<O, T>(elem, spec_from(from), spec_upto(upto)) {
                assert forall|k: int| 0 <= k < 64 implies bit(word & live, k) == bit(live, k) by {
                    if bit(live, k) {
                        let i = O::spec_index_of(k, w);
                        assert(bit(live, O::spec_at(i, w)));
                        assert(elem_bit::<O, T>(elem, i));
                    }
                }
                lemma_bits_equal(word & live, live);
            }
        }
    }
    word & live == live
}

/// Whether some bit of `elem` from `from` up to `upto` is set.  The bits
/// of `elem` outside that range, which may be a neighbour's, are masked
/// away before the test.
pub fn masked_any<O: BitOrder, T: BitMemory>(
    elem: T,
    from: Option<BitIdx<T>>,
    upto: Option<BitTail<T>>,
) -> (r: bool)
    ensures
        r == spec_elem_any::<O, T>(elem, spec_from(from), spec_upto(upto)),
{
    let mask: T = O::mask::<T>(from, upto);
    let word: u64 = elem.to_u64();
    let live: u64 = mask.to_u64();
    proof {
        let w = T::width();
        T::lemma_width();
        O::lemma_bijection(w);
        mask.lemma_value();
        crate::bits::lemma_bounded_bits(live, w);
        lemma_and_bits(word, live);
        lemma_const_bits();
        if word & live != 0 {
            if forall|k: int| 0 <= k < 64 ==> !bit(word & live, k) {
                lemma_bits_equal(word & live, 0);
            }
            let k = choose|k: int| 0 <= k < 64 && bit(word & live, k);
            let i = O::spec_index_of(k, w);
            assert(bit(live, O::spec_at(i, w)));
            assert(elem_bit::<O, T>(elem, i));
        } else {
            if spec_elem_any::<O, T>(elem, spec_from(from), spec_upto(upto)) {
                let i = choose|i: int|
                    spec_from(from) <= i < spec_upto(upto) && 0 <= i < w && elem_bit::<O, T>(
                        elem,
                        i,
                    );
                assert(bit(live, O::spec_at(i, w)));
                assert(bit(word & live, O::spec_at(i, w)));
            }
        }
    }
    word & live != 0
}

/// Sets every bit of `elem` from `from` up to `upto` to `value`, and leaves
/// the bits of `elem` outside that range, which may be a neighbour's, as they
/// were.
pub fn masked_fill<O: BitOrder, T: BitMemory>(
    elem: T,
    from: Option<BitIdx<T>>,
    upto: Option<BitTail<T>>,
    value: bool,
) -> (r: T)
    ensures
        forall|i: int|
            0 <= i < T::width() ==> #[trigger] elem_bit::<O, T>(r, i) == if spec_from(from) <= i
                < spec_upto(upto) {
                value
            } else {
                elem_bit::<O, T>(elem, i)
            },
{
    let mask: T = O::mask::<T>(from, upto);
    let new: u64 = if value {
        u64::MAX
    } else {
        0
    };
    proof {
        T::lemma_width();
        O::lemma_bijection(T::width());
        lemma_const_bits();
    }
    write_bits(elem, mask, new)
}

/// The element with every bit equal to `value`.
pub fn whole_fill<O: BitOrder, T: BitMemory>(value: bool) -> (r: T)
    ensures
        forall|i: int| 0 <= i < T::width() ==> #[trigger] elem_bit::<O, T>(r, i) == value,
{
    proof {
        T::lemma_width();
        O::lemma_bijection(T::width());
        lemma_const_bits();
        lemma_low_mask_bits(T::width());
    }
    if value {
        T::all()
    } else {
        T::zero()
    }
}

/// Whether every bit of `elem` is set.
pub fn whole_all<O: BitOrder, T: BitMemory>(elem: T) -> (r: bool)
    ensures
        r == spec_elem_all::<O, T>(elem, 0, T::width()),
{
    let word: u64 = elem.to_u64();
    let full: u64 = T::all().to_u64();
    proof {
        let w = T::width();
        T::lemma_width();
        O::lemma_bijection(w);
        elem.lemma_value();
        crate::bits::lemma_bounded_bits(word, w);
        lemma_low_mask_bits(w);
        if word != full {
            if spec_elem_all::<O, T>(elem, 0, w) {
                assert forall|k: int| 0 <= k < 64 implies bit(word, k) == bit(full, k) by {
                    if k < w {
                        let i = O::spec_index_of(k, w);
                        assert(elem_bit::<O, T>(elem, i));
                    }
                }
                lemma_bits_equal(word, full);
            }
        }
    }
    word == full
}

/// Whether some bit of `elem` is set.
pub fn whole_any<O: BitOrder, T: BitMemory>(elem: T) -> (r: bool)
    ensures
        r == spec_elem_any::<O, T>(elem, 0, T::width()),
{
    let word: u64 = elem.to_u64();
    proof {
        let w = T::width();
        T::lemma_width();
        O::lemma_bijection(w);
        elem.lemma_value();
        crate::bits::lemma_bounded_bits(word, w);
        lemma_const_bits();
        if word != 0 {
            if forall|k: int| 0 <= k < 64 ==> !bit(word, k) {
                lemma_bits_equal(word, 0);
            }
            let k = choose|k: int| 0 <= k < 64 && bit(word, k);
            let i = O::spec_index_of(k, w);
            assert(elem_bit::<O, T>(elem, i));
        }
    }
    word != 0
}

impl BitMemory for u8 {
    open spec fn width() -> int {
        8
    }

    open spec fn value(self) -> u64 {
        self as u64
    }

    proof fn lemma_width() {
    }

    proof fn lemma_value(self) {
        lemma_width_masks(0);
    }

    proof fn lemma_same_value(a: Self, b: Self) {
    }

    fn bits() -> (w: u8) {
        8
    }

    fn indx() -> (n: u8) {
        3
    }

    fn mask() -> (m: u8) {
        7
    }

    fn zero() -> (e: Self) {
        0
    }

    fn one() -> (e: Self) {
        1
    }

    fn all() -> (e: Self) {
        proof {
            lemma_width_masks(0);
        }
        0xff
    }

    fn to_u64(self) -> (v: u64) {
        self as u64
    }

    fn from_u64(v: u64) -> (e: Self) {
        proof {
            lemma_width_masks(v);
        }
        (v & 0xff) as u8
    }
}

impl BitMemory for u16 {
    open spec fn width() -> int {
        16
    }

    open spec fn value(self) -> u64 {
        self as u64
    }

    proof fn lemma_width() {
    }

    proof fn lemma_value(self) {
        lemma_width_masks(0);
    }

    proof fn lemma_same_value(a: Self, b: Self) {
    }

    fn bits() -> (w: u8) {
        16
    }

    fn indx() -> (n: u8) {
        4
    }

    fn mask() -> (m: u8) {
        15
    }

    fn zero() -> (e: Self) {
        0
    }

    fn one() -> (e: Self) {
        1
    }

    fn all() -> (e: Self) {
        proof {
            lemma_width_masks(0);
        }
        0xffff
    }

    fn to_u64(self) -> (v: u64) {
        self as u64
    }

    fn from_u64(v: u64) -> (e: Self) {
        proof {
            lemma_width_masks(v);
        }
        (v & 0xffff) as u16
    }
}

impl BitMemory for u32 {
    open spec fn width() -> int {
        32
    }

    open spec fn value(self) -> u64 {
        self as u64
    }

    proof fn lemma_width() {
    }

    proof fn lemma_value(self) {
        lemma_width_masks(0);
    }

    proof fn lemma_same_value(a: Self, b: Self) {
    }

    fn bits() -> (w: u8) {
        32
    }

    fn indx() -> (n: u8) {
        5
    }

    fn mask() -> (m: u8) {
        31
    }

    fn zero() -> (e: Self) {
        0
    }

    fn one() -> (e: Self) {
        1
    }

    fn all() -> (e: Self) {
        proof {
            lemma_width_masks(0);
        }
        0xffff_ffff
    }

    fn to_u64(self) -> (v: u64) {
        self as u64
    }

    fn from_u64(v: u64) -> (e: Self) {
        proof {
            lemma_width_masks(v);
        }
        (v & 0xffff_ffff) as u32
    }
}

impl BitMemory for u64 {
    open spec fn width() -> int {
        64
    }

    open spec fn value(self) -> u64 {
        self
    }

    proof fn lemma_width() {
    }

    proof fn lemma_value(self) {
    }

    proof fn lemma_same_value(a: Self, b: Self) {
    }

    fn bits() -> (w: u8) {
        64
    }

    fn indx() -> (n: u8) {
        6
    }

    fn mask() -> (m: u8) {
        63
    }

    fn zero() -> (e: Self) {
        0
    }

    fn one() -> (e: Self) {
        1
    }

    fn all() -> (e: Self) {
        0xffff_ffff_ffff_ffff
    }

    fn to_u64(self) -> (v: u64) {
        self
    }

    fn from_u64(v: u64) -> (e: Self) {
        proof {
            lemma_width_masks(v);
        }
        v
    }
}

impl BitMemory for usize {
    open spec fn width() -> int {
        usize::BITS as int
    }

    open spec fn value(self) -> u64 {
        self as u64
    }

    proof fn lemma_width() {
    }

    proof fn lemma_value(self) {
        lemma_width_masks(0);
    }

    proof fn lemma_same_value(a: Self, b: Self) {
    }

    fn bits() -> (w: u8) {
        usize::BITS as u8
    }

    fn indx() -> (n: u8) {
        if usize::BITS == 32 {
            5
        } else {
            6
        }
    }

    fn mask() -> (m: u8) {
        (usize::BITS - 1) as u8
    }

    fn zero() -> (e: Self) {
        0
    }

    fn one() -> (e: Self) {
        1
    }

    fn all() -> (e: Self) {
        proof {
            lemma_width_masks(0);
        }
        usize::MAX
    }

    fn to_u64(self) -> (v: u64) {
        self as u64
    }

    fn from_u64(v: u64) -> (e: Self) {
        proof {
            lemma_width_masks(v);
        }
        (v & (usize::MAX as u64)) as usize
    }
}

} // verus!
