//! A view and its elements as plain values, for carrying them elsewhere.
use crate::mem::{elem_bit, BitMemory};
use crate::order::BitOrder;
use crate::pointer::{BitPtr, BitPtrError, MAX_BITS};
use crate::slice::BitSlice;
use vstd::prelude::*;

verus! {

/// The bits of a view, written down: the index of the first bit in the
/// first element, the number of bits, and the elements that hold them.
///
/// The elements are taken whole, so the first and the last may hold bits
/// that are not the view's.  Those bits mean nothing: two records that
/// differ only in them hold the same bits.
pub struct BitRecord<T: BitMemory> {
    pub head: u8,
    pub bits: u64,
    pub data: Vec<T>,
}

/// Why a record does not describe a view.
#[derive(Clone, Copy, Debug, PartialEq, Eq)]
pub enum RecordError {
    /// The head and the number of bits are not those of any view.
    Pointer(BitPtrError),
    /// The record holds `found` elements where its bits lie in `expected`.
    WrongElementCount { expected: usize, found: usize },
}

impl<T: BitMemory> BitRecord<T> {
    /// What `view` returns: the first limit that the record breaks, or
    /// nothing where it breaks none.
    pub open spec fn spec_problem(self) -> Option<RecordError> {
        if self.head >= T::width() {
            Some(RecordError::Pointer(BitPtrError::HeadOutOfRange))
        } else if self.bits > MAX_BITS {
            Some(RecordError::Pointer(BitPtrError::TooManyBits))
        } else if crate::pointer::spec_elements(self.head as int, self.bits as int, T::width())
            > crate::pointer::spec_max_elts(T::width()) {
            Some(RecordError::Pointer(BitPtrError::TooManyElements))
        } else if crate::pointer::spec_elements(self.head as int, self.bits as int, T::width())
            != self.data@.len() {
            Some(
                RecordError::WrongElementCount {
                    expected: crate::pointer::spec_elements(
                        self.head as int,
                        self.bits as int,
                        T::width(),
                    ) as usize,
                    found: self.data@.len() as usize,
                },
            )
        } else {
            None
        }
    }

    /// The view that the record describes, over its own elements: it starts
    /// at bit `head` of the first of them and holds `bits` bits.
    ///
    /// Fails when the head or the number of bits is not that of any view,
    /// or when the record does not hold exactly the elements that the bits
    /// lie in.  The bits of the elements outside the view are not looked
    /// at.
    pub fn view<O: BitOrder>(&self) -> (r: Result<BitSlice<O, T>, RecordError>)
        ensures
            match r {
                Ok(s) => {
                    &&& self.spec_problem() is None
                    &&& s.wf()
                    &&& s.spec_addr() == 0
                    &&& s.spec_head() == self.head
                    &&& s.spec_len() == self.bits
                    &&& s.spec_elements() == self.data@.len()
                    &&& s.spec_within(self.data@)
                },
                Err(e) => self.spec_problem() == Some(e),
            },
    {
        if self.bits > MAX_BITS as u64 {
            if self.head >= T::bits() {
                return Err(RecordError::Pointer(BitPtrError::HeadOutOfRange));
            }
            return Err(RecordError::Pointer(BitPtrError::TooManyBits));
        }
        let ptr: BitPtr<T> = match BitPtr::new(0, self.head, self.bits as usize) {
            Ok(ptr) => ptr,
            Err(e) => {
                return Err(RecordError::Pointer(e));
            },
        };
        let expected: usize = ptr.elements();
        let found: usize = self.data.len();
        if expected != found {
            return Err(RecordError::WrongElementCount { expected, found });
        }
        Ok(BitSlice::from_bitptr(ptr))
    }
}

impl<O: BitOrder, T: BitMemory> BitSlice<O, T> {
    /// Writes the view down: its head, its length, and a copy of each
    /// element it touches.
    pub fn to_record(&self, mem: &[T]) -> (r: BitRecord<T>)
        requires
            self.spec_within(mem@),
        ensures
            r.head == self.spec_head(),
            r.bits == self.spec_len(),
            r.data@ == mem@.subrange(self.spec_addr(), self.spec_addr() + self.spec_elements()),
            r.spec_problem() is None,
    {
        let ptr: BitPtr<T> = self.bitptr();
        let elems: &[T] = self.as_aliased_slice(mem);
        BitRecord {
            head: ptr.head().get(),
            bits: ptr.len() as u64,
            data: vstd::slice::slice_to_vec(elems),
        }
    }

    /// A view reads the same from the elements it touches, taken out of the
    /// array, as from the array: the view at address zero with the same
    /// head and length holds the same bits there.
    pub proof fn lemma_rebased(self, other: Self, mem: Seq<T>)
        requires
            self.wf(),
            other.wf(),
            self.spec_within(mem),
            other.spec_addr() == 0,
            other.spec_head() == self.spec_head(),
            other.spec_len() == self.spec_len(),
        ensures
            other.spec_bits(mem.subrange(self.spec_addr(), self.spec_addr() + self.spec_elements()))
                == self.spec_bits(mem),
    {
        let part = mem.subrange(self.spec_addr(), self.spec_addr() + self.spec_elements());
        assert forall|k: int| 0 <= k < self.spec_len() implies other.spec_bit(part, k)
            == self.spec_bit(mem, k) by {
            self.lemma_coords(k);
        }
        assert(other.spec_bits(part) =~= self.spec_bits(mem));
    }

    /// What a view reads depends on no bit outside it: two arrays that
    /// agree on every bit of the view read the same.
    pub proof fn lemma_dead_bits(self, one: Seq<T>, other: Seq<T>)
        requires
            self.wf(),
            forall|e: int, i: int|
                0 <= i < T::width() && self.spec_covers(e, i) ==> #[trigger] elem_bit::<O, T>(
                    one[e],
                    i,
                ) == elem_bit::<O, T>(other[e], i),
        ensures
            self.spec_bits(one) == self.spec_bits(other),
    {
        assert forall|k: int| 0 <= k < self.spec_len() implies self.spec_bit(one, k)
            == self.spec_bit(other, k) by {
            self.lemma_coords(k);
        }
        assert(self.spec_bits(one) =~= self.spec_bits(other));
    }
}

} // verus!
