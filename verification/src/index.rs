//! Typed bit indices.
//!
//! A [`BitIdx`] is a logical position inside one element, a [`BitPos`] is a
//! physical one (a shift amount from the least significant edge), and a
//! [`BitTail`] is the logical position one past the last bit of a run, which
//! may be the width itself.  Each carries its element type, so that an index
//! into a `u8` cannot be used on a `u32`.
use crate::bits::{
    bit, lemma_and_bits, lemma_low_mask_bits, lemma_one_bits, low_mask, supported_width,
};
use crate::mem::BitMemory;
use core::marker::PhantomData;
use vstd::prelude::*;

verus! {

/// A logical bit index inside an element of type `T`: at least zero and
/// less than the width of `T`.
pub struct BitIdx<T: BitMemory> {
    idx: u8,
    _ty: PhantomData<T>,
}

/// A logical end index inside an element of type `T`: at least zero and at
/// most the width of `T`.
pub struct BitTail<T: BitMemory> {
    end: u8,
    _ty: PhantomData<T>,
}

/// A physical bit position inside an element of type `T`: the number of
/// places a one-bit mask is shifted from the least significant edge.
pub struct BitPos<T: BitMemory> {
    pos: u8,
    _ty: PhantomData<T>,
}

impl<T: BitMemory> Clone for BitIdx<T> {
    fn clone(&self) -> (r: Self)
        ensures
            r == *self,
    {
        *self
    }
}

impl<T: BitMemory> Copy for BitIdx<T> {

}

impl<T: BitMemory> BitIdx<T> {
    /// The index as a number.
    pub closed spec fn value(self) -> int {
        self.idx as int
    }

    /// The index lies inside the element.
    #[verifier::type_invariant]
    pub open spec fn wf(self) -> bool {
        0 <= self.value() < T::width()
    }

    /// The index whose number is `v`.
    pub closed spec fn spec_new(v: int) -> Self {
        BitIdx { idx: v as u8, _ty: PhantomData }
    }

    /// `spec_new` and `value` undo each other.
    pub proof fn lemma_spec_new(self, v: int)
        ensures
            0 <= v <= u8::MAX ==> Self::spec_new(v).value() == v,
            Self::spec_new(self.value()) == self,
    {
    }

    /// The index `idx`, if it lies inside the element.
    pub fn new(idx: u8) -> (r: Option<Self>)
        ensures
            r is Some <==> idx < T::width(),
            r matches Some(i) ==> i == Self::spec_new(idx as int) && i.value() == idx && i.wf(),
    {
        if idx < T::bits() {
            Some(BitIdx { idx, _ty: PhantomData })
        } else {
            None
        }
    }

    /// The index `idx`, which the caller knows to lie inside the element.
    pub(crate) fn new_unchecked(idx: u8) -> (r: Self)
        requires
            idx < T::width(),
        ensures
            r == Self::spec_new(idx as int),
            r.value() == idx,
            r.wf(),
    {
        BitIdx { idx, _ty: PhantomData }
    }

    /// The index of the first bit of an element.
    pub fn zero() -> (r: Self)
        ensures
            r == Self::spec_new(0),
            r.value() == 0,
            r.wf(),
    {
        proof {
            T::lemma_width();
        }
        BitIdx { idx: 0, _ty: PhantomData }
    }

    /// The index as a number.
    pub fn get(self) -> (r: u8)
        ensures
            r == self.value(),
            self.wf(),
    {
        proof {
            use_type_invariant(&self);
        }
        self.idx
    }

    /// Moves the index by `by` bits, forwards or backwards.
    ///
    /// Returns how many elements the move crosses and the index at which it
    /// lands in the element it reaches.  A move backwards past the start of
    /// an element crosses into the one before it, so the element count is
    /// the quotient rounded down and the index is never negative.
    pub fn offset(self, by: isize) -> (r: (isize, Self))
        ensures
            r.0 == spec_offset_elts(self.value(), by as int, T::width()),
            r.1.value() == spec_offset_index(self.value(), by as int, T::width()),
            r.1.wf(),
    {
        proof {
            use_type_invariant(&self);
            T::lemma_width();
            lemma_offset(self.value(), by as int, T::width());
        }
        let width: usize = T::bits() as usize;
        let idx: usize = self.idx as usize;
        if by >= 0 {
            let far: usize = by as usize + idx;
            let elts: usize = far / width;
            let bit: usize = far % width;
            (elts as isize, BitIdx { idx: bit as u8, _ty: PhantomData })
        } else {
            let back: usize = (-(by + 1)) as usize + 1;
            if back <= idx {
                (0, BitIdx { idx: (idx - back) as u8, _ty: PhantomData })
            } else {
                let short: usize = back - idx;
                let rest: usize = short % width;
                if rest == 0 {
                    let elts: usize = short / width;
                    (-(elts as isize), BitIdx { idx: 0, _ty: PhantomData })
                } else {
                    let elts: usize = short / width + 1;
                    (-(elts as isize), BitIdx { idx: (width - rest) as u8, _ty: PhantomData })
                }
            }
        }
    }
}

/// The number of elements crossed when moving `by` bits from index `idx`
/// in elements of width `w`: the quotient of the target by the width,
/// rounded down.
pub open spec fn spec_offset_elts(idx: int, by: int, w: int) -> int {
    (idx + by) / w
}

/// The index reached when moving `by` bits from index `idx` in elements of
/// width `w`: the remainder of the target by the width, never negative.
pub open spec fn spec_offset_index(idx: int, by: int, w: int) -> int {
    (idx + by) % w
}

/// The farthest moves.  Moving back by the most negative distance lands on
/// the index the move started from, half of all elements back.  Moving
/// forward by the greatest distance from an index other than zero lands on
/// the index before it, one element more than half of all elements on;
/// from index zero it lands on the last index of an element.
pub proof fn lemma_offset_extremes(idx: int, w: int)
    requires
        supported_width(w),
        0 <= idx < w,
    ensures
        spec_offset_index(idx, isize::MIN as int, w) == idx,
        spec_offset_elts(idx, isize::MIN as int, w) * w == isize::MIN,
        spec_offset_elts(idx, isize::MIN as int, w) == -((isize::MAX as int / w) + 1),
        idx > 0 ==> spec_offset_index(idx, isize::MAX as int, w) == idx - 1,
        idx > 0 ==> spec_offset_elts(idx, isize::MAX as int, w) == (isize::MAX as int / w) + 1,
        spec_offset_index(0, isize::MAX as int, w) == w - 1,
        spec_offset_elts(0, isize::MAX as int, w) == isize::MAX as int / w,
{
    if w == 8 {
    } else if w == 16 {
    } else if w == 32 {
    } else {
    }
}

proof fn lemma_offset(idx: int, by: int, w: int)
    requires
        supported_width(w),
        0 <= idx < w,
        isize::MIN <= by <= isize::MAX,
    ensures
        0 <= spec_offset_index(idx, by, w) < w,
        spec_offset_elts(idx, by, w) * w + spec_offset_index(idx, by, w) == idx + by,
        isize::MIN <= spec_offset_elts(idx, by, w) <= isize::MAX,
        idx + by >= 0 ==> spec_offset_elts(idx, by, w) == (idx + by) / w && spec_offset_index(
            idx,
            by,
            w,
        ) == (idx + by) % w,
        idx + by < 0 && (-(idx + by)) % w == 0 ==> spec_offset_elts(idx, by, w) == -((-(idx + by))
            / w) && spec_offset_index(idx, by, w) == 0,
        idx + by < 0 && (-(idx + by)) % w != 0 ==> spec_offset_elts(idx, by, w) == -((-(idx + by))
            / w + 1) && spec_offset_index(idx, by, w) == w - (-(idx + by)) % w,
{
    if w == 8 {
    } else if w == 16 {
    } else if w == 32 {
    } else {
    }
}

impl<T: BitMemory> Clone for BitTail<T> {
    fn clone(&self) -> (r: Self)
        ensures
            r == *self,
    {
        *self
    }
}

impl<T: BitMemory> Copy for BitTail<T> {

}

impl<T: BitMemory> BitTail<T> {
    /// The end index as a number.
    pub closed spec fn value(self) -> int {
        self.end as int
    }

    /// The end index lies inside the element or at its end.
    #[verifier::type_invariant]
    pub open spec fn wf(self) -> bool {
        0 <= self.value() <= T::width()
    }

    /// The end index whose number is `v`.
    pub closed spec fn spec_new(v: int) -> Self {
        BitTail { end: v as u8, _ty: PhantomData }
    }

    /// `spec_new` and `value` undo each other.
    pub proof fn lemma_spec_new(self, v: int)
        ensures
            0 <= v <= u8::MAX ==> Self::spec_new(v).value() == v,
            Self::spec_new(self.value()) == self,
    {
    }

    /// The end index `end`, if it is at most the width.
    pub fn new(end: u8) -> (r: Option<Self>)
        ensures
            r is Some <==> end <= T::width(),
            r matches Some(t) ==> t == Self::spec_new(end as int) && t.value() == end && t.wf(),
    {
        if end <= T::bits() {
            Some(BitTail { end, _ty: PhantomData })
        } else {
            None
        }
    }

    /// The end index `end`, which the caller knows to be at most the width.
    pub(crate) fn new_unchecked(end: u8) -> (r: Self)
        requires
            end <= T::width(),
        ensures
            r == Self::spec_new(end as int),
            r.value() == end,
            r.wf(),
    {
        BitTail { end, _ty: PhantomData }
    }

    /// The end index that is flush with the end of the element.
    pub fn end() -> (r: Self)
        ensures
            r == Self::spec_new(T::width()),
            r.value() == T::width(),
            r.wf(),
    {
        proof {
            T::lemma_width();
        }
        BitTail { end: T::bits(), _ty: PhantomData }
    }

    /// The end index as a number.
    pub fn get(self) -> (r: u8)
        ensures
            r == self.value(),
            self.wf(),
    {
        proof {
            use_type_invariant(&self);
        }
        self.end
    }
}

impl<T: BitMemory> Clone for BitPos<T> {
    fn clone(&self) -> (r: Self)
        ensures
            r == *self,
    {
        *self
    }
}

impl<T: BitMemory> Copy for BitPos<T> {

}

impl<T: BitMemory> BitPos<T> {
    /// The position as a number.
    pub closed spec fn value(self) -> int {
        self.pos as int
    }

    /// The position lies inside the element.
    #[verifier::type_invariant]
    pub open spec fn wf(self) -> bool {
        0 <= self.value() < T::width()
    }

    /// The position `pos`, if it lies inside the element.
    pub fn new(pos: u8) -> (r: Option<Self>)
        ensures
            r is Some <==> pos < T::width(),
            r matches Some(p) ==> p.value() == pos && p.wf(),
    {
        if pos < T::bits() {
            Some(BitPos { pos, _ty: PhantomData })
        } else {
            None
        }
    }

    /// The position `pos`, which the caller knows to lie inside the element.
    pub(crate) fn new_unchecked(pos: u8) -> (r: Self)
        requires
            pos < T::width(),
        ensures
            r.value() == pos,
            r.wf(),
    {
        BitPos { pos, _ty: PhantomData }
    }

    /// The position as a number.
    pub fn get(self) -> (r: u8)
        ensures
            r == self.value(),
            self.wf(),
    {
        proof {
            use_type_invariant(&self);
        }
        self.pos
    }

    /// The element value with only the bit at this position set.
    pub fn select(self) -> (r: T)
        ensures
            forall|k: int| 0 <= k < 64 ==> (#[trigger] bit(r.value(), k) <==> k == self.value()),
    {
        proof {
            use_type_invariant(&self);
            T::lemma_width();
            lemma_one_bits(self.pos as u64);
            lemma_low_mask_bits(T::width());
            lemma_and_bits(1u64 << (self.pos as u64), low_mask(T::width()));
        }
        T::from_u64(1u64 << self.pos)
    }
}

} // verus!
