//! Bit slices: views of a run of bits in an array of elements.
use crate::bits::{lemma_join, lemma_scale, lemma_split, supported_width};
use crate::domain::Domain;
use crate::index::BitIdx;
use crate::mem::{elem_bit, lemma_spec_elts, BitMemory};
use crate::order::BitOrder;
use crate::pointer::{max_elts, spec_max_elts, BitPtr, BitPtrError, MAX_BITS};
use core::marker::PhantomData;
use vstd::prelude::*;

verus! {

/// A view of a run of bits in an array of elements of type `T`, numbered
/// inside each element by order `O`.
///
/// The view is a descriptor and holds no reference: the array is handed to
/// each operation that reads or writes bits.  Sibling views made by
/// splitting a view may share an element at the place of the split; writes
/// through either leave the other's bits as they were.
pub struct BitSlice<O: BitOrder, T: BitMemory> {
    ptr: BitPtr<T>,
    _order: PhantomData<O>,
}

impl<O: BitOrder, T: BitMemory> Clone for BitSlice<O, T> {
    fn clone(&self) -> (r: Self)
        ensures
            r == *self,
    {
        *self
    }
}

impl<O: BitOrder, T: BitMemory> Copy for BitSlice<O, T> {

}

/// Why a bit could not be reached: `index` is not less than `len`, the
/// length of the view.
#[derive(Clone, Copy, Debug, PartialEq, Eq)]
pub struct IndexError {
    pub index: usize,
    pub len: usize,
}

/// A view cut at the element boundaries inside it.
///
/// The head and the tail lie in the edge elements, which the view may share
/// with a neighbour; the body lies in the elements that the view covers in
/// full.
pub enum BitDomain<O: BitOrder, T: BitMemory> {
    /// The view lies inside one element and touches neither of its ends.
    Enclave { body: BitSlice<O, T> },
    /// The bits of the view in its partial first element, in the elements it
    /// covers in full, and in its partial last element.  Each may be
    /// empty.
    Region { head: BitSlice<O, T>, body: BitSlice<O, T>, tail: BitSlice<O, T> },
}

impl<O: BitOrder, T: BitMemory> BitSlice<O, T> {
    /// The descriptor of the viewed region.
    pub closed spec fn spec_bitptr(self) -> BitPtr<T> {
        self.ptr
    }

    /// The view of the region that `ptr` describes.
    pub closed spec fn spec_new(ptr: BitPtr<T>) -> Self {
        BitSlice { ptr, _order: PhantomData }
    }

    /// The index, in the array, of the first element of the view.
    pub open spec fn spec_addr(self) -> int {
        self.spec_bitptr().spec_addr()
    }

    /// The index of the first bit of the view in its first element.
    pub open spec fn spec_head(self) -> int {
        self.spec_bitptr().spec_head()
    }

    /// The number of bits in the view.
    pub open spec fn spec_len(self) -> int {
        self.spec_bitptr().spec_len()
    }

    /// The number of elements the view touches.
    pub open spec fn spec_elements(self) -> int {
        self.spec_bitptr().spec_elements()
    }

    /// The end index of the view in its last element.
    pub open spec fn spec_tail(self) -> int {
        self.spec_bitptr().spec_tail()
    }

    /// What every view satisfies: its descriptor is well formed.
    #[verifier::type_invariant]
    pub open spec fn wf(self) -> bool {
        self.spec_bitptr().wf()
    }

    /// Whether the array `mem` holds every element the view touches.
    pub open spec fn spec_within(self, mem: Seq<T>) -> bool {
        self.spec_addr() + self.spec_elements() <= mem.len()
    }

    /// The number of the first bit of the view, counting every bit of the
    /// array in order from the first bit of its first element.
    pub open spec fn spec_start(self) -> int {
        self.spec_addr() * T::width() + self.spec_head()
    }

    /// The bit of the view at `index`, read from `mem`: the bit at logical
    /// index `(head + index) % width` of the element `(head + index) /
    /// width` places after the first.
    pub open spec fn spec_bit(self, mem: Seq<T>, index: int) -> bool {
        elem_bit::<O, T>(
            mem[self.spec_addr() + (self.spec_head() + index) / T::width()],
            (self.spec_head() + index) % T::width(),
        )
    }

    /// The bits of the view, read from `mem`.
    pub open spec fn spec_bits(self, mem: Seq<T>) -> Seq<bool> {
        Seq::new(self.spec_len() as nat, |index: int| self.spec_bit(mem, index))
    }

    /// The index in the view of the bit at logical index `i` of the element
    /// at `e`.  The bit belongs to the view when this is at least zero and
    /// less than the length.
    pub open spec fn spec_index_of(self, e: int, i: int) -> int {
        (e - self.spec_addr()) * T::width() + i - self.spec_head()
    }

    /// Whether the bit at logical index `i` of the element at `e` belongs
    /// to the view.
    pub open spec fn spec_covers(self, e: int, i: int) -> bool {
        0 <= self.spec_index_of(e, i) < self.spec_len()
    }

    /// The first logical index of the element at `e` that belongs to the
    /// view: the head in the first element, zero in the others.
    pub open spec fn spec_elem_from(self, e: int) -> int {
        if e == self.spec_addr() {
            self.spec_head()
        } else {
            0
        }
    }

    /// The end of the logical indices of the element at `e` that belong to
    /// the view: the tail in the last element, the width in the others.
    pub open spec fn spec_elem_upto(self, e: int) -> int {
        if e == self.spec_addr() + self.spec_elements() - 1 {
            self.spec_tail()
        } else {
            T::width()
        }
    }

    /// Whether `after` is `before` with no bit changed but those of the
    /// view.
    pub open spec fn spec_rest_kept(self, before: Seq<T>, after: Seq<T>) -> bool {
        &&& after.len() == before.len()
        &&& forall|e: int, i: int|
            0 <= e < before.len() && 0 <= i < T::width() && !self.spec_covers(e, i)
                ==> #[trigger] elem_bit::<O, T>(after[e], i) == elem_bit::<O, T>(before[e], i)
    }

    /// Whether two views have no bit in common.
    pub open spec fn spec_disjoint(self, other: Self) -> bool {
        ||| self.spec_start() + self.spec_len() <= other.spec_start()
        ||| other.spec_start() + other.spec_len() <= self.spec_start()
    }

    /// The view of the bits of this view from `start` up to but not
    /// including `end`.
    pub open spec fn spec_range(self, start: int, end: int) -> Self {
        Self::spec_new(
            BitPtr::spec_new(
                self.spec_addr() + (self.spec_head() + start) / T::width(),
                (self.spec_head() + start) % T::width(),
                end - start,
            ),
        )
    }

    /// The number of bits of the view in its partial first element: none
    /// where the view starts at the start of an element.
    pub open spec fn spec_head_len(self) -> int {
        if self.spec_head() == 0 || self.spec_len() == 0 {
            0
        } else if self.spec_elements() == 1 {
            self.spec_len()
        } else {
            T::width() - self.spec_head()
        }
    }

    /// The number of bits of the view in its partial last element: none
    /// where the view ends at the end of an element, or where the last
    /// element is also the partial first.
    pub open spec fn spec_tail_len(self) -> int {
        if self.spec_tail() == T::width() || self.spec_len() == 0 {
            0
        } else if self.spec_elements() == 1 {
            if self.spec_head() == 0 {
                self.spec_len()
            } else {
                0
            }
        } else {
            self.spec_tail()
        }
    }

    /// The view cut at the element boundaries inside it.
    pub open spec fn spec_bit_domain(self) -> BitDomain<O, T> {
        if self.spec_bitptr().spec_domain() is Minor {
            BitDomain::Enclave { body: self.spec_range(0, self.spec_len()) }
        } else {
            BitDomain::Region {
                head: self.spec_range(0, self.spec_head_len()),
                body: self.spec_range(
                    self.spec_head_len(),
                    self.spec_len() - self.spec_tail_len(),
                ),
                tail: self.spec_range(self.spec_len() - self.spec_tail_len(), self.spec_len()),
            }
        }
    }

    /// The parts of a view made by `spec_new`.
    pub proof fn lemma_spec_new(ptr: BitPtr<T>)
        ensures
            Self::spec_new(ptr).spec_bitptr() == ptr,
    {
    }

    /// Where the bit at `index` of the view lies: in which element after
    /// the first, and at which logical index.
    pub proof fn lemma_coords(self, index: int)
        requires
            self.wf(),
            0 <= index < self.spec_len(),
        ensures
            0 <= (self.spec_head() + index) / T::width() < self.spec_elements(),
            0 <= (self.spec_head() + index) % T::width() < T::width(),
            self.spec_index_of(
                self.spec_addr() + (self.spec_head() + index) / T::width(),
                (self.spec_head() + index) % T::width(),
            ) == index,
    {
        T::lemma_width();
        let w = T::width();
        let x = self.spec_head() + index;
        lemma_spec_elts(self.spec_head() + self.spec_len(), w);
        lemma_split(x, w);
        lemma_scale(x / w, self.spec_elements(), w);
        assert((self.spec_addr() + x / w - self.spec_addr()) * w == (x / w) * w);
    }

    /// A bit that belongs to the view lies in an element the view touches,
    /// and the view reaches it at its index.
    pub proof fn lemma_covered(self, e: int, i: int)
        requires
            self.wf(),
            0 <= i < T::width(),
            self.spec_covers(e, i),
        ensures
            self.spec_addr() <= e < self.spec_addr() + self.spec_elements(),
            (self.spec_head() + self.spec_index_of(e, i)) / T::width() == e - self.spec_addr(),
            (self.spec_head() + self.spec_index_of(e, i)) % T::width() == i,
    {
        T::lemma_width();
        let w = T::width();
        let q = e - self.spec_addr();
        lemma_spec_elts(self.spec_head() + self.spec_len(), w);
        lemma_join(q, i, w);
        lemma_scale(q, self.spec_elements(), w);
        lemma_scale(-1, q, w);
    }

    /// Which bits of which elements belong to the view: in each element the
    /// view touches, those from `spec_elem_from` up to `spec_elem_upto`, and
    /// none in any other element.
    pub proof fn lemma_elem_cover(self, e: int, i: int)
        requires
            self.wf(),
            0 <= i < T::width(),
        ensures
            self.spec_covers(e, i) <==> self.spec_addr() <= e < self.spec_addr()
                + self.spec_elements() && self.spec_elem_from(e) <= i < self.spec_elem_upto(e),
            self.spec_len() > 0 ==> 0 < self.spec_tail() <= T::width(),
    {
        T::lemma_width();
        let w = T::width();
        let count = self.spec_elements();
        let d = e - self.spec_addr();
        lemma_spec_elts(self.spec_head() + self.spec_len(), w);
        crate::pointer::lemma_spec_tail(self.spec_head(), self.spec_len(), w);
        assert(w * (count - 1) == count * w - w) by (nonlinear_arith);
        assert((self.spec_addr() - self.spec_addr()) * w == 0);
        lemma_scale(d, 0, w);
        lemma_scale(0, d, w);
        lemma_scale(d, count - 1, w);
        lemma_scale(count - 1, d, w);
        lemma_scale(d, count, w);
        lemma_scale(count, d, w);
        assert((count - 1) * w == count * w - w) by (nonlinear_arith);
        assert(0 * w == 0);
    }

    /// Where the bits of a view no longer than an element lie: in its
    /// first element while they fit there, and in the next from its start.
    pub proof fn lemma_field_coords(self, index: int)
        requires
            self.wf(),
            0 <= index < self.spec_len() <= T::width(),
        ensures
            1 <= self.spec_elements() <= 2,
            self.spec_elements() == 1 <==> self.spec_head() + self.spec_len() <= T::width(),
            self.spec_elements() == 1 ==> self.spec_tail() == self.spec_head() + self.spec_len(),
            self.spec_elements() == 2 ==> self.spec_tail() == self.spec_head() + self.spec_len()
                - T::width(),
            self.spec_head() + index < T::width() ==> (self.spec_head() + index) / T::width() == 0
                && (self.spec_head() + index) % T::width() == self.spec_head() + index,
            self.spec_head() + index >= T::width() ==> (self.spec_head() + index) / T::width() == 1
                && (self.spec_head() + index) % T::width() == self.spec_head() + index
                - T::width(),
    {
        T::lemma_width();
        let w = T::width();
        let x = self.spec_head() + index;
        lemma_spec_elts(self.spec_head() + self.spec_len(), w);
        lemma_scale(self.spec_elements(), 1, w);
        lemma_scale(self.spec_elements(), 2, w);
        lemma_scale(1, self.spec_elements(), w);
        lemma_scale(0, self.spec_elements(), w);
        lemma_scale(2, self.spec_elements(), w);
        if x < w {
            lemma_join(0, x, w);
        } else {
            lemma_join(1, x - w, w);
        }
        if self.spec_elements() == 2 {
            assert(w * (2 - 1) == w);
        } else {
            assert(w * (1 - 1) == 0);
        }
    }

    /// A range of a view is a view in the same elements: it holds the bits
    /// of the range, it lies in every array the view lies in, and it
    /// covers no bit that the view does not cover.
    pub proof fn lemma_range(self, start: int, end: int, mem: Seq<T>)
        requires
            self.wf(),
            0 <= start <= end <= self.spec_len(),
        ensures
            self.spec_range(start, end).wf(),
            self.spec_range(start, end).spec_len() == end - start,
            self.spec_range(start, end).spec_addr() == self.spec_addr() + (self.spec_head()
                + start) / T::width(),
            self.spec_range(start, end).spec_head() == (self.spec_head() + start) % T::width(),
            self.spec_range(start, end).spec_addr() + self.spec_range(start, end).spec_elements()
                <= self.spec_addr() + self.spec_elements(),
            self.spec_within(mem) ==> self.spec_range(start, end).spec_within(mem),
            self.spec_range(start, end).spec_bits(mem) == self.spec_bits(mem).subrange(start, end),
            forall|e: int, i: int|
                0 <= i < T::width() ==> #[trigger] self.spec_range(start, end).spec_index_of(e, i)
                    == self.spec_index_of(e, i) - start,
    {
        T::lemma_width();
        let w = T::width();
        let sub = self.spec_range(start, end);
        let q = (self.spec_head() + start) / w;
        let r = (self.spec_head() + start) % w;
        let count = self.spec_elements();
        lemma_split(self.spec_head() + start, w);
        lemma_spec_elts(self.spec_head() + self.spec_len(), w);
        lemma_scale(q, count, w);
        lemma_scale(q, count + 1, w);
        let ptr = BitPtr::<T>::spec_new(self.spec_addr() + q, r, end - start);
        self.spec_bitptr().lemma_spec_new(self.spec_addr() + q, r, end - start);
        Self::lemma_spec_new(ptr);
        lemma_spec_elts(r + end - start, w);
        let sub_count = sub.spec_elements();
        assert(sub_count * w < r + (end - start) + w);
        assert(q * w + r + (end - start) <= count * w);
        assert(sub_count + q <= count) by {
            assert((sub_count + q) * w == sub_count * w + q * w) by (nonlinear_arith);
            assert((count + 1) * w == count * w + w) by (nonlinear_arith);
            lemma_scale(sub_count + q, count + 1, w);
        }
        assert forall|k: int| 0 <= k < end - start implies sub.spec_bit(mem, k) == self.spec_bit(
            mem,
            start + k,
        ) by {
            lemma_split(r + k, w);
            lemma_join(q + (r + k) / w, (r + k) % w, w);
            assert((q + (r + k) / w) * w == q * w + ((r + k) / w) * w) by (nonlinear_arith);
        }
        assert(sub.spec_bits(mem) =~= self.spec_bits(mem).subrange(start, end));
        assert forall|e: int, i: int| 0 <= i < w implies #[trigger] sub.spec_index_of(e, i)
            == self.spec_index_of(e, i) - start by {
            assert((e - (self.spec_addr() + q)) * w == (e - self.spec_addr()) * w - q * w)
                by (nonlinear_arith);
        }
    }

    /// The two views made by splitting a view at `mid` have no bit in
    /// common, and together they hold the bits of the view in order.
    pub proof fn lemma_split(self, mid: int, mem: Seq<T>)
        requires
            self.wf(),
            0 <= mid <= self.spec_len(),
        ensures
            self.spec_range(0, mid).spec_disjoint(self.spec_range(mid, self.spec_len())),
            self.spec_range(0, mid).spec_bits(mem) + self.spec_range(
                mid,
                self.spec_len(),
            ).spec_bits(mem) == self.spec_bits(mem),
    {
        T::lemma_width();
        let w = T::width();
        let left = self.spec_range(0, mid);
        let right = self.spec_range(mid, self.spec_len());
        self.lemma_range(0, mid, mem);
        self.lemma_range(mid, self.spec_len(), mem);
        lemma_split(self.spec_head(), w);
        lemma_split(self.spec_head() + mid, w);
        lemma_join(0, self.spec_head(), w);
        assert((self.spec_addr() + (self.spec_head() + mid) / w) * w == self.spec_addr() * w + ((
        self.spec_head() + mid) / w) * w) by (nonlinear_arith);
        assert(left.spec_start() == self.spec_start());
        assert(right.spec_start() == self.spec_start() + mid);
        assert(left.spec_bits(mem) + right.spec_bits(mem) =~= self.spec_bits(mem));
    }

    /// A write through one view leaves every view that has no bit in
    /// common with it reading as before, also where the two share an
    /// element.
    pub proof fn lemma_disjoint_kept(self, other: Self, before: Seq<T>, after: Seq<T>)
        requires
            self.wf(),
            other.wf(),
            self.spec_disjoint(other),
            other.spec_within(before),
            self.spec_rest_kept(before, after),
        ensures
            other.spec_bits(after) == other.spec_bits(before),
    {
        let w = T::width();
        assert forall|k: int| 0 <= k < other.spec_len() implies other.spec_bit(after, k)
            == other.spec_bit(before, k) by {
            other.lemma_coords(k);
            let e = other.spec_addr() + (other.spec_head() + k) / w;
            let i = (other.spec_head() + k) % w;
            assert((e - other.spec_addr()) * w == e * w - other.spec_addr() * w)
                by (nonlinear_arith);
            assert((e - self.spec_addr()) * w == e * w - self.spec_addr() * w)
                by (nonlinear_arith);
            assert(!self.spec_covers(e, i));
        }
        assert(other.spec_bits(after) =~= other.spec_bits(before));
    }

    /// If two writes through a view start from the same array and leave
    /// the view reading the same, they leave the same array: what a write
    /// does is fixed by what the view reads afterwards.
    pub proof fn lemma_write_determined(self, before: Seq<T>, one: Seq<T>, other: Seq<T>)
        requires
            self.wf(),
            self.spec_within(before),
            self.spec_rest_kept(before, one),
            self.spec_rest_kept(before, other),
            self.spec_bits(one) == self.spec_bits(other),
        ensures
            one == other,
    {
        T::lemma_width();
        let w = T::width();
        O::lemma_bijection(w);
        assert forall|e: int| 0 <= e < before.len() implies one[e] == other[e] by {
            let a = one[e].value();
            let b = other[e].value();
            one[e].lemma_value();
            other[e].lemma_value();
            crate::bits::lemma_bounded_bits(a, w);
            crate::bits::lemma_bounded_bits(b, w);
            assert forall|p: int| 0 <= p < 64 implies crate::bits::bit(a, p) == crate::bits::bit(
                b,
                p,
            ) by {
                if p < w {
                    let i = O::spec_index_of(p, w);
                    assert(O::spec_at(i, w) == p);
                    assert(0 <= i < w);
                    assert(crate::bits::bit(a, p) == elem_bit::<O, T>(one[e], i));
                    assert(crate::bits::bit(b, p) == elem_bit::<O, T>(other[e], i));
                    if self.spec_covers(e, i) {
                        self.lemma_covered(e, i);
                        let k = self.spec_index_of(e, i);
                        assert(self.spec_bits(one)[k] == self.spec_bits(other)[k]);
                        assert(self.spec_bits(one)[k] == self.spec_bit(one, k));
                        assert(self.spec_bits(other)[k] == self.spec_bit(other, k));
                        assert(self.spec_bit(one, k) == elem_bit::<O, T>(one[e], i));
                        assert(self.spec_bit(other, k) == elem_bit::<O, T>(other[e], i));
                    } else {
                        assert(elem_bit::<O, T>(one[e], i) == elem_bit::<O, T>(before[e], i));
                        assert(elem_bit::<O, T>(other[e], i) == elem_bit::<O, T>(before[e], i));
                    }
                } else {
                    assert(!crate::bits::bit(a, p));
                    assert(!crate::bits::bit(b, p));
                }
            }
            crate::bits::lemma_bits_equal(a, b);
            T::lemma_same_value(one[e], other[e]);
        }
        assert(one =~= other);
    }

    /// The view of no bits.
    pub fn empty() -> (r: Self)
        ensures
            r.wf(),
            r.spec_len() == 0,
            r.spec_addr() == 0,
            r.spec_head() == 0,
    {
        BitSlice { ptr: BitPtr::empty(), _order: PhantomData }
    }

    /// The view of every bit of one element, which is the first element of
    /// the array handed to the operations on the view.
    pub fn from_element(elem: &T) -> (r: Self)
        ensures
            r.wf(),
            r.spec_addr() == 0,
            r.spec_head() == 0,
            r.spec_len() == T::width(),
            r.spec_elements() == 1,
    {
        proof {
            T::lemma_width();
            lemma_whole(1, T::width());
            assert(1 * T::width() == T::width());
        }
        BitSlice {
            ptr: BitPtr::new_unchecked(0, BitIdx::zero(), T::bits() as usize),
            _order: PhantomData,
        }
    }

    /// The view of every bit of `slice`, from the first bit of its first
    /// element to the last bit of its last.
    ///
    /// Fails when `slice` has more elements than a view can touch, or more
    /// bits than a view can hold.
    pub fn from_slice(slice: &[T]) -> (r: Result<Self, BitPtrError>)
        ensures
            r is Ok <==> slice@.len() * T::width() <= MAX_BITS,
            r matches Ok(s) ==> s.wf() && s.spec_addr() == 0 && s.spec_head() == 0 && s.spec_len()
                == slice@.len() * T::width() && s.spec_elements() == slice@.len()
                && s.spec_within(slice@),
            r matches Err(e) ==> e == if slice@.len() > spec_max_elts(T::width()) {
                BitPtrError::TooManyElements
            } else {
                BitPtrError::TooManyBits
            },
    {
        proof {
            T::lemma_width();
        }
        let len: usize = slice.len();
        let width: usize = T::bits() as usize;
        proof {
            lemma_whole(len as int, T::width());
        }
        if len > max_elts::<T>() {
            return Err(BitPtrError::TooManyElements);
        }
        if len > MAX_BITS / width {
            return Err(BitPtrError::TooManyBits);
        }
        let bits: usize = len * width;
        match BitPtr::new(0, 0, bits) {
            Ok(ptr) => Ok(BitSlice { ptr, _order: PhantomData }),
            Err(e) => Err(e),
        }
    }

    /// The view of the region that `ptr` describes.
    pub fn from_bitptr(ptr: BitPtr<T>) -> (r: Self)
        ensures
            r == Self::spec_new(ptr),
            r.spec_bitptr() == ptr,
            r.wf(),
    {
        proof {
            use_type_invariant(&ptr);
        }
        BitSlice { ptr, _order: PhantomData }
    }

    /// The number of bits in the view.
    pub fn len(&self) -> (r: usize)
        ensures
            r == self.spec_len(),
    {
        self.ptr.len()
    }

    /// Whether the view holds no bits.
    pub fn is_empty(&self) -> (r: bool)
        ensures
            r == (self.spec_len() == 0),
    {
        self.ptr.is_empty()
    }

    /// The descriptor of the viewed region.
    pub fn bitptr(&self) -> (r: BitPtr<T>)
        ensures
            r == self.spec_bitptr(),
            r.wf(),
            self.wf(),
    {
        proof {
            use_type_invariant(self);
        }
        self.ptr
    }

    /// Classifies the view by how it lies over its elements.
    pub fn domain(&self) -> (r: Domain<T>)
        ensures
            r == self.spec_bitptr().spec_domain(),
            self.wf(),
    {
        self.ptr.domain()
    }

    /// Whether the array `mem` holds every element the view touches.
    pub fn fits(&self, mem: &[T]) -> (r: bool)
        ensures
            r == self.spec_within(mem@),
    {
        let count: usize = self.ptr.elements();
        let first: usize = self.ptr.pointer();
        first <= mem.len() && count <= mem.len() - first
    }

    /// The view of the bits from `start` up to but not including `end`,
    /// which the caller knows to be in order and within the view.
    pub fn range_unchecked(&self, start: usize, end: usize) -> (r: Self)
        requires
            start <= end <= self.spec_len(),
        ensures
            r == self.spec_range(start as int, end as int),
            r.wf(),
    {
        proof {
            use_type_invariant(self);
            self.lemma_range(start as int, end as int, Seq::empty());
            T::lemma_width();
            lemma_split(self.spec_head() + start, T::width());
        }
        let (elt, bit) = self.ptr.head().offset(start as isize);
        let addr: usize = self.ptr.pointer() + elt as usize;
        BitSlice { ptr: BitPtr::new_unchecked(addr, bit, end - start), _order: PhantomData }
    }

    /// The view of the bits from `start` up to but not including `end`.
    ///
    /// Returns `None` unless `start <= end` and `end` is at most the
    /// length.
    pub fn range(&self, start: usize, end: usize) -> (r: Option<Self>)
        ensures
            r == if start <= end <= self.spec_len() {
                Some(self.spec_range(start as int, end as int))
            } else {
                None
            },
            r matches Some(s) ==> s.wf(),
    {
        if start <= end && end <= self.ptr.len() {
            Some(self.range_unchecked(start, end))
        } else {
            None
        }
    }

    /// The views of the bits before `mid` and of the bits from `mid` on,
    /// where the caller knows `mid` to be at most the length.
    pub fn split_at_unchecked(&self, mid: usize) -> (r: (Self, Self))
        requires
            mid <= self.spec_len(),
        ensures
            r.0 == self.spec_range(0, mid as int),
            r.1 == self.spec_range(mid as int, self.spec_len()),
            r.0.wf(),
            r.1.wf(),
    {
        let len: usize = self.ptr.len();
        (self.range_unchecked(0, mid), self.range_unchecked(mid, len))
    }

    /// The views of the bits before `mid` and of the bits from `mid` on.
    ///
    /// Returns `None` when `mid` is greater than the length.
    pub fn split_at(&self, mid: usize) -> (r: Option<(Self, Self)>)
        ensures
            r == if mid <= self.spec_len() {
                Some((self.spec_range(0, mid as int), self.spec_range(mid as int, self.spec_len())))
            } else {
                None
            },
            r matches Some(halves) ==> halves.0.wf() && halves.1.wf(),
    {
        if mid <= self.ptr.len() {
            Some(self.split_at_unchecked(mid))
        } else {
            None
        }
    }

    /// Cuts the view at the element boundaries inside it.
    pub fn bit_domain(&self) -> (r: BitDomain<O, T>)
        ensures
            r == self.spec_bit_domain(),
            0 <= self.spec_head_len() <= self.spec_len() - self.spec_tail_len() <= self.spec_len(),
            (self.spec_len() - self.spec_tail_len() - self.spec_head_len()) % T::width() == 0,
    {
        proof {
            use_type_invariant(self);
            T::lemma_width();
            self.spec_bitptr().lemma_spec_domain();
            let w = T::width();
            let count = self.spec_elements();
            lemma_spec_elts(self.spec_head() + self.spec_len(), w);
            crate::pointer::lemma_spec_tail(self.spec_head(), self.spec_len(), w);
            assert(w * (count - 1) == (count - 1) * w) by (nonlinear_arith);
            assert((count - 2) * w + w == (count - 1) * w) by (nonlinear_arith);
            lemma_join(count - 2, 0, w);
            lemma_join(count - 1, 0, w);
            lemma_join(count, 0, w);
            lemma_join(0, 0, w);
            lemma_scale(1, count, w);
            lemma_scale(0, count, w);
            lemma_scale(count, 2, w);
            assert(1 * w == w);
            assert(0 * w == 0);
            assert((1 - 1) * w == 0);
        }
        let len: usize = self.ptr.len();
        let width: usize = T::bits() as usize;
        match self.domain() {
            Domain::Empty => BitDomain::Region {
                head: self.range_unchecked(0, 0),
                body: self.range_unchecked(0, 0),
                tail: self.range_unchecked(0, 0),
            },
            Domain::Minor { head, elem, tail } => BitDomain::Enclave {
                body: self.range_unchecked(0, len),
            },
            Domain::Major { head, left, body, right, tail } => {
                let first: usize = width - head.get() as usize;
                let last: usize = len - tail.get() as usize;
                BitDomain::Region {
                    head: self.range_unchecked(0, first),
                    body: self.range_unchecked(first, last),
                    tail: self.range_unchecked(last, len),
                }
            },
            Domain::PartialHead { head, elem, body } => {
                let first: usize = width - head.get() as usize;
                BitDomain::Region {
                    head: self.range_unchecked(0, first),
                    body: self.range_unchecked(first, len),
                    tail: self.range_unchecked(len, len),
                }
            },
            Domain::PartialTail { body, elem, tail } => {
                let last: usize = len - tail.get() as usize;
                BitDomain::Region {
                    head: self.range_unchecked(0, 0),
                    body: self.range_unchecked(0, last),
                    tail: self.range_unchecked(last, len),
                }
            },
            Domain::Spanning { body } => BitDomain::Region {
                head: self.range_unchecked(0, 0),
                body: self.range_unchecked(0, len),
                tail: self.range_unchecked(len, len),
            },
        }
    }

    /// Reads the bit at `index`, which the caller knows to be less than the
    /// length.
    pub fn get_unchecked(&self, mem: &[T], index: usize) -> (r: bool)
        requires
            self.spec_within(mem@),
            index < self.spec_len(),
        ensures
            r == self.spec_bit(mem@, index as int),
    {
        proof {
            use_type_invariant(self);
            self.lemma_coords(index as int);
        }
        let (elt, bit) = self.ptr.head().offset(index as isize);
        let at: usize = self.ptr.pointer() + elt as usize;
        crate::mem::get::<O, T>(&mem[at], bit)
    }

    /// Reads the bit at `index`.
    ///
    /// Fails when `index` is not less than the length.
    pub fn get(&self, mem: &[T], index: usize) -> (r: Result<bool, IndexError>)
        requires
            self.spec_within(mem@),
        ensures
            r == if index < self.spec_len() {
                Ok::<bool, IndexError>(self.spec_bit(mem@, index as int))
            } else {
                Err::<bool, IndexError>(IndexError { index, len: self.spec_len() as usize })
            },
    {
        let len: usize = self.ptr.len();
        if index < len {
            Ok(self.get_unchecked(mem, index))
        } else {
            Err(IndexError { index, len })
        }
    }

    /// Writes `value` to the bit at `index`, which the caller knows to be
    /// less than the length.  No other bit of `mem` changes.
    pub fn set_unchecked(&self, mem: &mut [T], index: usize, value: bool)
        requires
            self.spec_within(old(mem)@),
            index < self.spec_len(),
        ensures
            self.spec_bits(final(mem)@) == self.spec_bits(old(mem)@).update(index as int, value),
            self.spec_rest_kept(old(mem)@, final(mem)@),
    {
        proof {
            use_type_invariant(self);
            self.lemma_coords(index as int);
            T::lemma_width();
            O::lemma_bijection(T::width());
        }
        let (elt, bit) = self.ptr.head().offset(index as isize);
        let at: usize = self.ptr.pointer() + elt as usize;
        let mut elem: T = mem[at];
        crate::mem::set::<O, T>(&mut elem, bit, value);
        mem[at] = elem;
        proof {
            assert forall|k: int| 0 <= k < self.spec_len() implies self.spec_bit(mem@, k)
                == self.spec_bits(old(mem)@).update(index as int, value)[k] by {
                self.lemma_coords(k);
            }
            assert(self.spec_bits(mem@) =~= self.spec_bits(old(mem)@).update(index as int, value));
        }
    }

    /// Writes `value` to the bit at `index`.  No other bit of `mem`
    /// changes.
    ///
    /// Fails, and leaves `mem` as it was, when `index` is not less than the
    /// length.
    pub fn set(&self, mem: &mut [T], index: usize, value: bool) -> (r: Result<(), IndexError>)
        requires
            self.spec_within(old(mem)@),
        ensures
            r == if index < self.spec_len() {
                Ok::<(), IndexError>(())
            } else {
                Err::<(), IndexError>(IndexError { index, len: self.spec_len() as usize })
            },
            r is Ok ==> self.spec_bits(final(mem)@) == self.spec_bits(old(mem)@).update(
                index as int,
                value,
            ) && self.spec_rest_kept(old(mem)@, final(mem)@),
            r is Err ==> final(mem)@ == old(mem)@,
    {
        let len: usize = self.ptr.len();
        if index < len {
            self.set_unchecked(mem, index, value);
            Ok(())
        } else {
            Err(IndexError { index, len })
        }
    }

    /// Exchanges the bits at `a` and `b`, which the caller knows to be less
    /// than the length.  No other bit of `mem` changes.
    pub fn swap_unchecked(&self, mem: &mut [T], a: usize, b: usize)
        requires
            self.spec_within(old(mem)@),
            a < self.spec_len(),
            b < self.spec_len(),
        ensures
            self.spec_bits(final(mem)@) == self.spec_bits(old(mem)@).update(
                a as int,
                self.spec_bit(old(mem)@, b as int),
            ).update(b as int, self.spec_bit(old(mem)@, a as int)),
            self.spec_rest_kept(old(mem)@, final(mem)@),
    {
        let bit_a: bool = self.get_unchecked(mem, a);
        let bit_b: bool = self.get_unchecked(mem, b);
        self.set_unchecked(mem, a, bit_b);
        self.set_unchecked(mem, b, bit_a);
    }

    /// Exchanges the bits at `a` and `b`.  No other bit of `mem` changes.
    ///
    /// Fails, and leaves `mem` as it was, when `a` or `b` is not less than
    /// the length; the error names `a` where both are not.
    pub fn swap(&self, mem: &mut [T], a: usize, b: usize) -> (r: Result<(), IndexError>)
        requires
            self.spec_within(old(mem)@),
        ensures
            r == if a >= self.spec_len() {
                Err::<(), IndexError>(IndexError { index: a, len: self.spec_len() as usize })
            } else if b >= self.spec_len() {
                Err::<(), IndexError>(IndexError { index: b, len: self.spec_len() as usize })
            } else {
                Ok::<(), IndexError>(())
            },
            r is Ok ==> self.spec_bits(final(mem)@) == self.spec_bits(old(mem)@).update(
                a as int,
                self.spec_bit(old(mem)@, b as int),
            ).update(b as int, self.spec_bit(old(mem)@, a as int)) && self.spec_rest_kept(
                old(mem)@,
                final(mem)@,
            ),
            r is Err ==> final(mem)@ == old(mem)@,
    {
        let len: usize = self.ptr.len();
        if a >= len {
            Err(IndexError { index: a, len })
        } else if b >= len {
            Err(IndexError { index: b, len })
        } else {
            self.swap_unchecked(mem, a, b);
            Ok(())
        }
    }

    /// Replaces each bit of the view by what `func` returns for its index
    /// and its value, from the first bit to the last.  No other bit of
    /// `mem` changes.
    pub fn for_each<F: Fn(usize, bool) -> bool>(&self, mem: &mut [T], func: F)
        requires
            self.spec_within(old(mem)@),
            forall|index: usize, bit: bool|
                index < self.spec_len() ==> call_requires(func, (index, bit)),
        ensures
            forall|k: int|
                0 <= k < self.spec_len() ==> call_ensures(
                    func,
                    (k as usize, self.spec_bit(old(mem)@, k)),
                    #[trigger] self.spec_bit(final(mem)@, k),
                ),
            self.spec_rest_kept(old(mem)@, final(mem)@),
    {
        let len: usize = self.ptr.len();
        let mut index: usize = 0;
        while index < len
            invariant
                index <= len == self.spec_len(),
                self.spec_within(mem@),
                mem@.len() == old(mem)@.len(),
                forall|index: usize, bit: bool|
                    index < self.spec_len() ==> call_requires(func, (index, bit)),
                forall|k: int|
                    0 <= k < index ==> call_ensures(
                        func,
                        (k as usize, self.spec_bit(old(mem)@, k)),
                        #[trigger] self.spec_bit(mem@, k),
                    ),
                forall|k: int|
                    index <= k < len ==> #[trigger] self.spec_bit(mem@, k) == self.spec_bit(
                        old(mem)@,
                        k,
                    ),
                self.spec_rest_kept(old(mem)@, mem@),
            decreases len - index,
        {
            let ghost prev = mem@;
            let bit: bool = self.get_unchecked(mem, index);
            let new: bool = func(index, bit);
            self.set_unchecked(mem, index, new);
            proof {
                assert forall|k: int| 0 <= k < len implies #[trigger] self.spec_bit(mem@, k) == (
                if k == index {
                    new
                } else {
                    self.spec_bit(prev, k)
                }) by {
                    assert(self.spec_bits(mem@)[k] == self.spec_bits(prev).update(
                        index as int,
                        new,
                    )[k]);
                }
            }
            index = index + 1;
        }
    }

    /// The elements that the view covers in full, without the edge elements
    /// that it may share with a neighbour.
    pub fn as_slice<'a>(&self, mem: &'a [T]) -> (r: &'a [T])
        requires
            self.spec_within(mem@),
        ensures
            r@ == mem@.subrange(
                self.spec_bitptr().spec_domain().spec_body().start as int,
                self.spec_bitptr().spec_domain().spec_body().end as int,
            ),
    {
        proof {
            use_type_invariant(self);
            self.spec_bitptr().lemma_spec_domain();
        }
        let body = self.domain().body();
        vstd::slice::slice_subrange(mem, body.start, body.end)
    }

    /// Every element that the view touches, the edge elements included.
    pub fn as_aliased_slice<'a>(&self, mem: &'a [T]) -> (r: &'a [T])
        requires
            self.spec_within(mem@),
        ensures
            r@ == mem@.subrange(self.spec_addr(), self.spec_addr() + self.spec_elements()),
    {
        let first: usize = self.ptr.pointer();
        let count: usize = self.ptr.elements();
        vstd::slice::slice_subrange(mem, first, first + count)
    }

    /// The elements that the view covers in full, for writing.  The rest of
    /// `mem` cannot be reached through the result.
    pub fn as_mut_slice<'a>(&self, mem: &'a mut [T]) -> (r: &'a mut [T])
        requires
            self.spec_within(old(mem)@),
        ensures
            r@ == old(mem)@.subrange(
                self.spec_bitptr().spec_domain().spec_body().start as int,
                self.spec_bitptr().spec_domain().spec_body().end as int,
            ),
            final(mem)@ == old(mem)@.subrange(
                0,
                self.spec_bitptr().spec_domain().spec_body().start as int,
            ) + final(r)@ + old(mem)@.subrange(
                self.spec_bitptr().spec_domain().spec_body().end as int,
                old(mem)@.len() as int,
            ),
    {
        proof {
            use_type_invariant(self);
            self.spec_bitptr().lemma_spec_domain();
        }
        let body = self.domain().body();
        let (front, rest) = mem.split_at_mut(body.start);
        let (middle, back) = rest.split_at_mut(body.end - body.start);
        proof {
            assert(old(mem)@.subrange(body.start as int, old(mem)@.len() as int).subrange(
                0,
                body.end - body.start,
            ) =~= old(mem)@.subrange(body.start as int, body.end as int));
            assert(old(mem)@.subrange(body.start as int, old(mem)@.len() as int).subrange(
                body.end - body.start,
                old(mem)@.len() - body.start,
            ) =~= old(mem)@.subrange(body.end as int, old(mem)@.len() as int));
        }
        middle
    }
}

proof fn lemma_whole(len: int, w: int)
    requires
        supported_width(w),
        0 <= len,
    ensures
        len > spec_max_elts(w) ==> len * w > MAX_BITS,
        len > MAX_BITS as int / w <==> len * w > MAX_BITS,
        crate::pointer::spec_elements(0, len * w, w) == len,
        len * w <= MAX_BITS ==> len <= spec_max_elts(w),
{
    lemma_spec_elts(len * w, w);
    lemma_split(MAX_BITS as int, w);
    lemma_scale(MAX_BITS as int / w, len, w);
    lemma_join(len, 0, w);
    lemma_join(len - 1, w - 1, w);
    assert((len - 1) * w + (w - 1) == len * w + w - 1 - w) by (nonlinear_arith);
}

/// Data that can be viewed as bits: an element, a slice of elements, or an
/// array of elements.
pub trait AsBits {
    /// The type of the elements of the data.
    type Store: BitMemory;

    /// The elements of the data.
    spec fn spec_elems(&self) -> Seq<Self::Store>;

    /// The view of every bit of the data, in order `O`.  The data, as a
    /// slice, is the array to hand to the operations on the view.
    ///
    /// Fails when the data has more elements than a view can touch, or
    /// more bits than a view can hold.
    fn bits<O: BitOrder>(&self) -> (r: Result<BitSlice<O, Self::Store>, BitPtrError>)
        ensures
            r is Ok <==> self.spec_elems().len() * Self::Store::width() <= MAX_BITS,
            r matches Ok(s) ==> s.wf() && s.spec_addr() == 0 && s.spec_head() == 0 && s.spec_len()
                == self.spec_elems().len() * Self::Store::width() && s.spec_within(
                self.spec_elems(),
            ),
    ;
}

impl<T: BitMemory> AsBits for T {
    type Store = T;

    open spec fn spec_elems(&self) -> Seq<T> {
        seq![*self]
    }

    fn bits<O: BitOrder>(&self) -> (r: Result<BitSlice<O, T>, BitPtrError>) {
        proof {
            T::lemma_width();
            assert(1 * T::width() == T::width());
        }
        Ok(BitSlice::from_element(self))
    }
}

impl<T: BitMemory> AsBits for [T] {
    type Store = T;

    open spec fn spec_elems(&self) -> Seq<T> {
        self@
    }

    fn bits<O: BitOrder>(&self) -> (r: Result<BitSlice<O, T>, BitPtrError>) {
        BitSlice::from_slice(self)
    }
}

impl<T: BitMemory, const N: usize> AsBits for [T; N] {
    type Store = T;

    open spec fn spec_elems(&self) -> Seq<T> {
        self@
    }

    fn bits<O: BitOrder>(&self) -> (r: Result<BitSlice<O, T>, BitPtrError>) {
        BitSlice::from_slice(self.as_slice())
    }
}

} // verus!
