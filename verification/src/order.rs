//! Bit orders: how a logical index inside an element maps to a physical
//! position.
use crate::bits::{
    bit, lemma_and_bits, lemma_const_bits, lemma_low_mask_bits, lemma_not_bits, lemma_or_bits,
    low_mask, mask_below, supported_width,
};
use crate::index::{BitIdx, BitPos, BitTail};
use crate::mem::BitMemory;
use vstd::prelude::*;

verus! {

/// A numbering of the bits of an element.
///
/// An order maps each logical index of an element to a physical position,
/// one to one.  An implementor states the mapping and its inverse and proves
/// that they undo each other.  The one-bit mask of an index is derived from
/// [`at`]; the mask of a run of indices is the implementor's to compute,
/// and [`derived_mask`] computes it for any order.
///
/// [`at`]: BitOrder::at
pub trait BitOrder: Sized {
    /// The position of logical index `idx` in an element of width `w`.
    spec fn spec_at(idx: int, w: int) -> int;

    /// The logical index that sits at position `pos` in an element of width
    /// `w`.
    spec fn spec_index_of(pos: int, w: int) -> int;

    /// The order is a bijection on the bits of an element.
    proof fn lemma_bijection(w: int)
        requires
            supported_width(w),
        ensures
            forall|i: int|
                0 <= i < w ==> 0 <= #[trigger] Self::spec_at(i, w) < w && Self::spec_index_of(
                    Self::spec_at(i, w),
                    w,
                ) == i,
            forall|p: int|
                0 <= p < w ==> 0 <= #[trigger] Self::spec_index_of(p, w) < w && Self::spec_at(
                    Self::spec_index_of(p, w),
                    w,
                ) == p,
    ;

    /// The position of the bit at logical index `place`.
    fn at<T: BitMemory>(place: BitIdx<T>) -> (pos: BitPos<T>)
        ensures
            pos.value() == Self::spec_at(place.value(), T::width()),
            pos.wf(),
    ;

    /// The element value with only the bit at logical index `place` set.
    fn select<T: BitMemory>(place: BitIdx<T>) -> (sel: T)
        ensures
            forall|k: int|
                0 <= k < 64 ==> (#[trigger] bit(sel.value(), k) <==> k == Self::spec_at(
                    place.value(),
                    T::width(),
                )),
    {
        Self::at::<T>(place).select()
    }

    /// The element value with the bits at the logical indices from `from`
    /// up to but not including `upto` set, and no others.  A missing `from`
    /// stands for the first index and a missing `upto` for the width.
    ///
    /// [`derived_mask`] computes this for any order, bit by bit; an order
    /// with a closed form for it uses that.
    fn mask<T: BitMemory>(from: Option<BitIdx<T>>, upto: Option<BitTail<T>>) -> (mask: T)
        ensures
            forall|i: int|
                0 <= i < T::width() ==> (#[trigger] bit(
                    mask.value(),
                    Self::spec_at(i, T::width()),
                ) <==> spec_from(from) <= i < spec_upto(upto)),
    ;
}

/// The mask of the logical indices from `from` up to but not including
/// `upto` under any order `O`, made by joining the one-bit masks of those
/// indices.
pub fn derived_mask<O: BitOrder, T: BitMemory>(
    from: Option<BitIdx<T>>,
    upto: Option<BitTail<T>>,
) -> (mask: T)
    ensures
        is_mask::<O, T>(mask.value(), spec_from(from), spec_upto(upto)),
{
    let lo: u8 = match from {
        Some(idx) => idx.get(),
        None => 0,
    };
    let hi: u8 = match upto {
        Some(tail) => tail.get(),
        None => T::bits(),
    };
    proof {
        T::lemma_width();
        O::lemma_bijection(T::width());
        lemma_const_bits();
    }
    let ghost w = T::width();
    let mut acc: u64 = 0;
    let mut cur: u8 = lo;
    while cur < hi
        invariant
            supported_width(w),
            w == T::width(),
            lo <= cur,
            cur <= hi || cur == lo,
            hi <= w,
            forall|k: int|
                0 <= k < 64 ==> (#[trigger] bit(acc, k) <==> k < w && lo <= O::spec_index_of(
                    k,
                    w,
                ) < cur),
            forall|i: int|
                0 <= i < w ==> 0 <= #[trigger] O::spec_at(i, w) < w && O::spec_index_of(
                    O::spec_at(i, w),
                    w,
                ) == i,
            forall|p: int|
                0 <= p < w ==> 0 <= #[trigger] O::spec_index_of(p, w) < w && O::spec_at(
                    O::spec_index_of(p, w),
                    w,
                ) == p,
        decreases hi - cur,
    {
        let sel: u64 = O::select::<T>(BitIdx::new_unchecked(cur)).to_u64();
        proof {
            lemma_or_bits(acc, sel);
        }
        acc = acc | sel;
        cur = cur + 1;
    }
    proof {
        lemma_low_mask_bits(w);
        lemma_and_bits(acc, low_mask(w));
        assert forall|i: int| 0 <= i < w implies (#[trigger] bit(
            acc & low_mask(w),
            O::spec_at(i, w),
        ) <==> lo <= i < hi) by {
            let p = O::spec_at(i, w);
            assert(bit(acc, p) <==> p < w && lo <= O::spec_index_of(p, w) < cur);
        }
    }
    T::from_u64(acc)
}

/// The first index of a mask: `from`, or zero where there is none.
pub open spec fn spec_from<T: BitMemory>(from: Option<BitIdx<T>>) -> int {
    match from {
        Some(idx) => idx.value(),
        None => 0,
    }
}

/// The end index of a mask: `upto`, or the width where there is none.
pub open spec fn spec_upto<T: BitMemory>(upto: Option<BitTail<T>>) -> int {
    match upto {
        Some(tail) => tail.value(),
        None => T::width(),
    }
}

/// Whether `m` has, under order `O`, exactly the bits at the logical
/// indices from `lo` up to but not including `hi`.
pub open spec fn is_mask<O: BitOrder, T: BitMemory>(m: u64, lo: int, hi: int) -> bool {
    forall|i: int|
        0 <= i < T::width() ==> (#[trigger] bit(m, O::spec_at(i, T::width())) <==> lo <= i < hi)
}

/// The order in which index zero is the least significant bit.
pub struct Lsb0;

/// The order in which index zero is the most significant bit.
pub struct Msb0;

/// The order that matches the conventional numbering of bits on the
/// machine.
pub type Local = Lsb0;

impl BitOrder for Lsb0 {
    open spec fn spec_at(idx: int, w: int) -> int {
        idx
    }

    open spec fn spec_index_of(pos: int, w: int) -> int {
        pos
    }

    proof fn lemma_bijection(w: int) {
    }

    fn at<T: BitMemory>(place: BitIdx<T>) -> (pos: BitPos<T>)
        ensures
            pos.value() == place.value(),
    {
        BitPos::new_unchecked(place.get())
    }

    fn mask<T: BitMemory>(from: Option<BitIdx<T>>, upto: Option<BitTail<T>>) -> (mask: T) {
        let lo: u8 = match from {
            Some(idx) => idx.get(),
            None => 0,
        };
        let hi: u8 = match upto {
            Some(tail) => tail.get(),
            None => T::bits(),
        };
        let below_hi: u64 = mask_below(hi);
        let below_lo: u64 = mask_below(lo);
        proof {
            T::lemma_width();
            lemma_low_mask_bits(hi as int);
            lemma_low_mask_bits(lo as int);
            lemma_low_mask_bits(T::width());
            lemma_not_bits(below_lo);
            lemma_and_bits(below_hi, !below_lo);
            lemma_and_bits(below_hi & !below_lo, low_mask(T::width()));
        }
        T::from_u64(below_hi & !below_lo)
    }
}

impl BitOrder for Msb0 {
    open spec fn spec_at(idx: int, w: int) -> int {
        w - 1 - idx
    }

    open spec fn spec_index_of(pos: int, w: int) -> int {
        w - 1 - pos
    }

    proof fn lemma_bijection(w: int) {
    }

    fn at<T: BitMemory>(place: BitIdx<T>) -> (pos: BitPos<T>)
        ensures
            pos.value() == T::width() - 1 - place.value(),
    {
        let idx: u8 = place.get();
        BitPos::new_unchecked(T::mask() - idx)
    }

    fn mask<T: BitMemory>(from: Option<BitIdx<T>>, upto: Option<BitTail<T>>) -> (mask: T) {
        let lo: u8 = match from {
            Some(idx) => idx.get(),
            None => 0,
        };
        let hi: u8 = match upto {
            Some(tail) => tail.get(),
            None => T::bits(),
        };
        let width: u8 = T::bits();
        let below_lo: u64 = mask_below(width - lo);
        let below_hi: u64 = mask_below(width - hi);
        proof {
            T::lemma_width();
            lemma_low_mask_bits(width - hi);
            lemma_low_mask_bits(width - lo);
            lemma_low_mask_bits(T::width());
            lemma_not_bits(below_hi);
            lemma_and_bits(below_lo, !below_hi);
            lemma_and_bits(below_lo & !below_hi, low_mask(T::width()));
        }
        T::from_u64(below_lo & !below_hi)
    }
}

} // verus!
