//! The descriptor of a bit region: where it starts and how long it is.
use crate::bits::supported_width;
use crate::domain::Domain;
use crate::index::{spec_offset_elts, spec_offset_index, BitIdx, BitTail};
use crate::mem::{elts, lemma_spec_elts, spec_elts, BitMemory};
use core::ops::Range;
use vstd::prelude::*;

verus! {

/// The greatest number of bits a region can hold.
pub const MAX_BITS: usize = usize::MAX / 8;

/// The greatest number of elements of width `w` a region can touch.
pub open spec fn spec_max_elts(w: int) -> int {
    MAX_BITS as int / w + 1
}

/// The greatest number of elements of type `T` a region can touch.
pub fn max_elts<T: BitMemory>() -> (n: usize)
    ensures
        n == spec_max_elts(T::width()),
{
    proof {
        T::lemma_width();
        lemma_max_elts(T::width());
    }
    MAX_BITS / (T::bits() as usize) + 1
}

proof fn lemma_max_elts(w: int)
    requires
        supported_width(w),
    ensures
        0 < spec_max_elts(w) <= MAX_BITS as int / 8 + 1,
{
    if w == 8 {
    } else if w == 16 {
    } else if w == 32 {
    } else {
    }
}

/// Why a descriptor could not be made.
#[derive(Clone, Copy, Debug, PartialEq, Eq)]
pub enum BitPtrError {
    /// The head index is not less than the width of an element.
    HeadOutOfRange,
    /// The region holds more than [`MAX_BITS`] bits.
    TooManyBits,
    /// The region touches more elements than a region may.
    TooManyElements,
    /// The region runs past the last address there is.
    AddressOverflow,
}

/// The number of elements touched by `bits` bits that start at index `head`
/// of an element of width `w`.
pub open spec fn spec_elements(head: int, bits: int, w: int) -> int {
    spec_elts(head + bits, w)
}

/// The end index, in its last element, of `bits` bits that start at index
/// `head` of an element of width `w`.  A run that stops at the end of an
/// element has the width as its end index.
pub open spec fn spec_tail(head: int, bits: int, w: int) -> int {
    head + bits - w * (spec_elements(head, bits, w) - 1)
}

/// The end index lies in `(0, w]`, and is `w` exactly when the run stops at
/// the end of an element.
pub proof fn lemma_spec_tail(head: int, bits: int, w: int)
    requires
        supported_width(w),
        0 <= head < w,
        0 <= bits,
    ensures
        0 < spec_tail(head, bits, w) <= w,
        spec_tail(head, bits, w) == w <==> (head + bits) % w == 0,
        spec_tail(head, bits, w) < w ==> spec_tail(head, bits, w) == (head + bits) % w,
        spec_elements(head, bits, w) == 0 <==> head + bits == 0,
        spec_elements(head, bits, w) == 1 <==> 0 < head + bits <= w,
{
    lemma_spec_elts(head + bits, w);
    if w == 8 {
    } else if w == 16 {
    } else if w == 32 {
    } else {
    }
}

/// The descriptor of a bit region: the address of its first element, the
/// index of its first bit in that element, and its length in bits.
///
/// An address is the index of an element in the backing array.  The
/// descriptor is a plain value and never changes; a narrower or shifted
/// region is a new descriptor.
pub struct BitPtr<T: BitMemory> {
    addr: usize,
    head: BitIdx<T>,
    bits: usize,
}

impl<T: BitMemory> Clone for BitPtr<T> {
    fn clone(&self) -> (r: Self)
        ensures
            r == *self,
    {
        *self
    }
}

impl<T: BitMemory> Copy for BitPtr<T> {

}

impl<T: BitMemory> BitPtr<T> {
    /// The address of the first element.
    pub closed spec fn spec_addr(self) -> int {
        self.addr as int
    }

    /// The index of the first bit in the first element.
    pub closed spec fn spec_head(self) -> int {
        self.head.value()
    }

    /// The length of the region in bits.
    pub closed spec fn spec_len(self) -> int {
        self.bits as int
    }

    /// The number of elements the region touches.
    pub open spec fn spec_elements(self) -> int {
        spec_elements(self.spec_head(), self.spec_len(), T::width())
    }

    /// The end index of the region in its last element.
    pub open spec fn spec_tail(self) -> int {
        spec_tail(self.spec_head(), self.spec_len(), T::width())
    }

    /// The descriptor with the given parts.
    pub closed spec fn spec_new(addr: int, head: int, bits: int) -> Self {
        BitPtr { addr: addr as usize, head: BitIdx::spec_new(head), bits: bits as usize }
    }

    /// What every descriptor satisfies: the head lies inside an element,
    /// the length and the element count are within their limits, and the
    /// region ends at an address that exists.
    #[verifier::type_invariant]
    pub open spec fn wf(self) -> bool {
        &&& 0 <= self.spec_head() < T::width()
        &&& 0 <= self.spec_len() <= MAX_BITS
        &&& self.spec_elements() <= spec_max_elts(T::width())
        &&& 0 <= self.spec_addr()
        &&& self.spec_addr() + self.spec_elements() <= usize::MAX
    }

    /// The parts of a descriptor made by `spec_new`, and that a descriptor
    /// is determined by its parts.
    pub proof fn lemma_spec_new(self, addr: int, head: int, bits: int)
        ensures
            0 <= addr <= usize::MAX && 0 <= head <= u8::MAX && 0 <= bits <= usize::MAX ==> {
                let p = Self::spec_new(addr, head, bits);
                p.spec_addr() == addr && p.spec_head() == head && p.spec_len() == bits
            },
            Self::spec_new(self.spec_addr(), self.spec_head(), self.spec_len()) == self,
    {
        self.head.lemma_spec_new(head);
    }

    /// Makes the descriptor of the region of `bits` bits that starts at bit
    /// `head` of the element at `addr`.
    pub fn new(addr: usize, head: u8, bits: usize) -> (r: Result<Self, BitPtrError>)
        ensures
            r == spec_checked::<T>(addr as int, head as int, bits as int),
            r matches Ok(p) ==> p.wf() && p.spec_addr() == addr && p.spec_head() == head
                && p.spec_len() == bits,
    {
        proof {
            T::lemma_width();
        }
        if head >= T::bits() {
            return Err(BitPtrError::HeadOutOfRange);
        }
        if bits > MAX_BITS {
            return Err(BitPtrError::TooManyBits);
        }
        let count: usize = elts::<T>(head as usize + bits);
        if count > max_elts::<T>() {
            return Err(BitPtrError::TooManyElements);
        }
        if count > usize::MAX - addr {
            return Err(BitPtrError::AddressOverflow);
        }
        let ptr = BitPtr { addr, head: BitIdx::new_unchecked(head), bits };
        proof {
            ptr.lemma_spec_new(addr as int, head as int, bits as int);
        }
        Ok(ptr)
    }

    /// The descriptor with the given parts, which the caller knows to be
    /// within every limit.
    pub(crate) fn new_unchecked(addr: usize, head: BitIdx<T>, bits: usize) -> (r: Self)
        requires
            head.wf(),
            bits <= MAX_BITS,
            spec_elements(head.value(), bits as int, T::width()) <= spec_max_elts(T::width()),
            addr + spec_elements(head.value(), bits as int, T::width()) <= usize::MAX,
        ensures
            r == Self::spec_new(addr as int, head.value(), bits as int),
            r.wf(),
            r.spec_addr() == addr,
            r.spec_head() == head.value(),
            r.spec_len() == bits,
    {
        let ptr = BitPtr { addr, head, bits };
        proof {
            head.lemma_spec_new(0);
            ptr.lemma_spec_new(addr as int, head.value(), bits as int);
        }
        ptr
    }

    /// The descriptor of the empty region: no bits, at address zero.
    pub fn empty() -> (r: Self)
        ensures
            r == Self::spec_new(0, 0, 0),
            r.wf(),
            r.spec_addr() == 0,
            r.spec_head() == 0,
            r.spec_len() == 0,
    {
        proof {
            T::lemma_width();
            lemma_max_elts(T::width());
            lemma_spec_elts(0, T::width());
        }
        let ptr = BitPtr { addr: 0, head: BitIdx::zero(), bits: 0 };
        proof {
            ptr.lemma_spec_new(0, 0, 0);
        }
        ptr
    }

    /// The descriptor of the region of the same length that starts `by`
    /// bits after this one, or before it where `by` is negative.
    ///
    /// The head moves as [`BitIdx::offset`] says and the address moves by
    /// the elements that the move crosses.  Nothing is checked: the caller
    /// knows that the region reached is one that a descriptor can name.
    pub fn offset(&self, by: isize) -> (r: Self)
        requires
            0 <= self.spec_addr() + spec_offset_elts(self.spec_head(), by as int, T::width()),
            self.spec_addr() + spec_offset_elts(self.spec_head(), by as int, T::width())
                + spec_elements(
                spec_offset_index(self.spec_head(), by as int, T::width()),
                self.spec_len(),
                T::width(),
            ) <= usize::MAX,
            spec_elements(
                spec_offset_index(self.spec_head(), by as int, T::width()),
                self.spec_len(),
                T::width(),
            ) <= spec_max_elts(T::width()),
        ensures
            r == Self::spec_new(
                self.spec_addr() + spec_offset_elts(self.spec_head(), by as int, T::width()),
                spec_offset_index(self.spec_head(), by as int, T::width()),
                self.spec_len(),
            ),
            r.wf(),
    {
        proof {
            use_type_invariant(self);
            T::lemma_width();
            lemma_spec_elts(
                spec_offset_index(self.spec_head(), by as int, T::width()) + self.spec_len(),
                T::width(),
            );
        }
        let (elts, head) = self.head.offset(by);
        let addr: usize = if elts >= 0 {
            self.addr + elts as usize
        } else {
            self.addr - ((-(elts + 1)) as usize + 1)
        };
        Self::new_unchecked(addr, head, self.bits)
    }

    /// The address of the first element.
    pub fn pointer(&self) -> (r: usize)
        ensures
            r == self.spec_addr(),
    {
        self.addr
    }

    /// The index of the first bit in the first element.
    pub fn head(&self) -> (r: BitIdx<T>)
        ensures
            r.value() == self.spec_head(),
            r == BitIdx::<T>::spec_new(self.spec_head()),
            r.wf(),
    {
        proof {
            use_type_invariant(self);
            self.head.lemma_spec_new(0);
        }
        self.head
    }

    /// The length of the region in bits.
    pub fn len(&self) -> (r: usize)
        ensures
            r == self.spec_len(),
    {
        self.bits
    }

    /// Whether the region holds no bits.
    pub fn is_empty(&self) -> (r: bool)
        ensures
            r == (self.spec_len() == 0),
    {
        self.bits == 0
    }

    /// The number of elements the region touches.
    pub fn elements(&self) -> (r: usize)
        ensures
            r == self.spec_elements(),
            self.wf(),
    {
        proof {
            use_type_invariant(self);
        }
        elts::<T>(self.head.get() as usize + self.bits)
    }

    /// The shape of the region.
    ///
    /// A region of no bits is `Empty`.  Otherwise the shape says which ends
    /// of the region fall inside an element: neither (`Spanning`), only the
    /// first (`PartialHead`), only the last (`PartialTail`), or both, in
    /// one element (`Minor`) or in two different ones (`Major`).
    pub open spec fn spec_domain(self) -> Domain<T> {
        let head = BitIdx::<T>::spec_new(self.spec_head());
        let tail = BitTail::<T>::spec_new(self.spec_tail());
        let first = self.spec_addr() as usize;
        let last = (self.spec_addr() + self.spec_elements() - 1) as usize;
        let end = (self.spec_addr() + self.spec_elements()) as usize;
        let next = (self.spec_addr() + 1) as usize;
        if self.spec_len() == 0 {
            Domain::Empty
        } else if self.spec_head() == 0 && self.spec_tail() == T::width() {
            Domain::Spanning { body: Range { start: first, end } }
        } else if self.spec_tail() == T::width() {
            Domain::PartialHead { head, elem: first, body: Range { start: next, end } }
        } else if self.spec_head() == 0 {
            Domain::PartialTail { body: Range { start: first, end: last }, elem: last, tail }
        } else if self.spec_elements() == 1 {
            Domain::Minor { head, elem: first, tail }
        } else {
            Domain::Major {
                head,
                left: first,
                body: Range { start: next, end: last },
                right: last,
                tail,
            }
        }
    }

    /// What each shape says of the region: where its head and tail lie,
    /// and which elements are its edges and its body.
    pub proof fn lemma_spec_domain(self)
        requires
            self.wf(),
        ensures
            match self.spec_domain() {
                Domain::Empty => self.spec_len() == 0,
                Domain::Minor { head, elem, tail } => {
                    &&& self.spec_len() > 0
                    &&& self.spec_elements() == 1
                    &&& head.value() == self.spec_head()
                    &&& tail.value() == self.spec_tail()
                    &&& 0 < self.spec_head()
                    &&& self.spec_tail() < T::width()
                    &&& elem == self.spec_addr()
                },
                Domain::Major { head, left, body, right, tail } => {
                    &&& self.spec_len() > 0
                    &&& self.spec_elements() >= 2
                    &&& head.value() == self.spec_head()
                    &&& tail.value() == self.spec_tail()
                    &&& 0 < self.spec_head()
                    &&& self.spec_tail() < T::width()
                    &&& left == self.spec_addr()
                    &&& body.start == self.spec_addr() + 1
                    &&& body.end == self.spec_addr() + self.spec_elements() - 1
                    &&& right == self.spec_addr() + self.spec_elements() - 1
                },
                Domain::PartialHead { head, elem, body } => {
                    &&& self.spec_len() > 0
                    &&& self.spec_elements() >= 1
                    &&& head.value() == self.spec_head()
                    &&& 0 < self.spec_head()
                    &&& self.spec_tail() == T::width()
                    &&& elem == self.spec_addr()
                    &&& body.start == self.spec_addr() + 1
                    &&& body.end == self.spec_addr() + self.spec_elements()
                },
                Domain::PartialTail { body, elem, tail } => {
                    &&& self.spec_len() > 0
                    &&& self.spec_elements() >= 1
                    &&& tail.value() == self.spec_tail()
                    &&& self.spec_head() == 0
                    &&& self.spec_tail() < T::width()
                    &&& body.start == self.spec_addr()
                    &&& body.end == self.spec_addr() + self.spec_elements() - 1
                    &&& elem == self.spec_addr() + self.spec_elements() - 1
                },
                Domain::Spanning { body } => {
                    &&& self.spec_len() > 0
                    &&& self.spec_elements() >= 1
                    &&& self.spec_head() == 0
                    &&& self.spec_tail() == T::width()
                    &&& body.start == self.spec_addr()
                    &&& body.end == self.spec_addr() + self.spec_elements()
                },
            },
    {
        T::lemma_width();
        lemma_spec_tail(self.spec_head(), self.spec_len(), T::width());
        self.head.lemma_spec_new(self.spec_head());
        BitTail::<T>::spec_new(0).lemma_spec_new(self.spec_tail());
    }

    /// Classifies the region by how it lies over its elements.
    pub fn domain(&self) -> (r: Domain<T>)
        ensures
            r == self.spec_domain(),
            self.wf(),
    {
        proof {
            use_type_invariant(self);
            T::lemma_width();
            lemma_spec_tail(self.spec_head(), self.spec_len(), T::width());
        }
        if self.bits == 0 {
            return Domain::Empty;
        }
        let head: BitIdx<T> = self.head();
        let tail: BitTail<T> = self.tail();
        let count: usize = self.elements();
        let first: usize = self.addr;
        let end: usize = first + count;
        let last: usize = end - 1;
        let at_start: bool = head.get() == 0;
        let at_end: bool = tail.get() == T::bits();
        if at_start && at_end {
            Domain::Spanning { body: first..end }
        } else if at_end {
            Domain::PartialHead { head, elem: first, body: first + 1..end }
        } else if at_start {
            Domain::PartialTail { body: first..last, elem: last, tail }
        } else if count == 1 {
            Domain::Minor { head, elem: first, tail }
        } else {
            Domain::Major { head, left: first, body: first + 1..last, right: last, tail }
        }
    }

    /// The end index of the region in its last element.
    pub fn tail(&self) -> (r: BitTail<T>)
        ensures
            r.value() == self.spec_tail(),
            r == BitTail::<T>::spec_new(self.spec_tail()),
            r.wf(),
    {
        proof {
            use_type_invariant(self);
            T::lemma_width();
            lemma_spec_tail(self.spec_head(), self.spec_len(), T::width());
            lemma_spec_elts(self.spec_head() + self.spec_len(), T::width());
        }
        let width: usize = T::bits() as usize;
        let end: usize = self.head.get() as usize + self.bits;
        let count: usize = elts::<T>(end);
        if count == 0 {
            BitTail::end()
        } else {
            assert((count - 1) * width <= end) by (nonlinear_arith)
                requires
                    count * width < end + width,
                    count >= 1,
            ;
            assert((count - 1) * width == width * (count - 1)) by (nonlinear_arith);
            BitTail::new_unchecked((end - (count - 1) * width) as u8)
        }
    }
}

/// What `BitPtr::new` returns for the given parts: the first limit that
/// the parts break, or the descriptor made of them.
pub open spec fn spec_checked<T: BitMemory>(addr: int, head: int, bits: int) -> Result<
    BitPtr<T>,
    BitPtrError,
> {
    if head >= T::width() {
        Err(BitPtrError::HeadOutOfRange)
    } else if bits > MAX_BITS {
        Err(BitPtrError::TooManyBits)
    } else if spec_elements(head, bits, T::width()) > spec_max_elts(T::width()) {
        Err(BitPtrError::TooManyElements)
    } else if addr + spec_elements(head, bits, T::width()) > usize::MAX {
        Err(BitPtrError::AddressOverflow)
    } else {
        Ok(BitPtr::<T>::spec_new(addr, head, bits))
    }
}

} // verus!
