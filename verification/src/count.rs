//! Counting the bits of an element, and of a view, that have a given value.
use crate::bits::{
    bit, lemma_and_bits, lemma_bounded_bits, lemma_low_mask_bits, lemma_not_bits, low_mask,
    supported_width,
};
use crate::bits::lemma_scale;
use crate::domain::Domain;
use crate::index::{BitIdx, BitTail};
use crate::mem::{elem_bit, lemma_spec_elts, BitMemory};
use crate::order::{spec_from, spec_upto, BitOrder};
use crate::slice::BitSlice;
use vstd::prelude::*;

verus! {

/// The number of bits of `x` that are set at the positions below `n`.
pub open spec fn count_below(x: u64, n: int) -> nat
    decreases n,
{
    if n <= 0 {
        0
    } else {
        count_below(x, n - 1) + if bit(x, n - 1) {
            1nat
        } else {
            0nat
        }
    }
}

/// The number of entries of `s` that are `value`.
pub open spec fn count_of(s: Seq<bool>, value: bool) -> nat
    decreases s.len(),
{
    if s.len() == 0 {
        0
    } else {
        count_of(s.drop_last(), value) + if s.last() == value {
            1nat
        } else {
            0nat
        }
    }
}

/// The number of bits of `elem` that are `value` at the logical indices
/// from `lo` up to but not including `hi`.
pub open spec fn spec_elem_count<O: BitOrder, T: BitMemory>(
    elem: T,
    lo: int,
    hi: int,
    value: bool,
) -> nat
    decreases hi - lo,
{
    if hi <= lo {
        0
    } else {
        spec_elem_count::<O, T>(elem, lo, hi - 1, value) + if elem_bit::<O, T>(elem, hi - 1)
            == value {
            1nat
        } else {
            0nat
        }
    }
}

/// The number of bits of `x` that are set at the positions below `n` whose
/// logical index in an element of width `w` is at least `lo` and less than
/// `hi`.
spec fn count_pos<O: BitOrder>(x: u64, lo: int, hi: int, w: int, n: int) -> nat
    decreases n,
{
    if n <= 0 {
        0
    } else {
        count_pos::<O>(x, lo, hi, w, n - 1) + if bit(x, n - 1) && n - 1 < w && lo
            <= O::spec_index_of(n - 1, w) < hi {
            1nat
        } else {
            0nat
        }
    }
}

/// A count is no more than the number of entries counted.
pub proof fn lemma_count_of_bound(s: Seq<bool>, value: bool)
    ensures
        count_of(s, value) <= s.len(),
    decreases s.len(),
{
    if s.len() > 0 {
        lemma_count_of_bound(s.drop_last(), value);
    }
}

/// A count of bits is no more than the number of places counted.
pub proof fn lemma_elem_count_bound<O: BitOrder, T: BitMemory>(
    elem: T,
    lo: int,
    hi: int,
    value: bool,
)
    ensures
        lo <= hi ==> spec_elem_count::<O, T>(elem, lo, hi, value) <= hi - lo,
        hi <= lo ==> spec_elem_count::<O, T>(elem, lo, hi, value) == 0,
    decreases hi - lo,
{
    if hi > lo {
        lemma_elem_count_bound::<O, T>(elem, lo, hi - 1, value);
    }
}

proof fn lemma_count_masked<O: BitOrder>(x: u64, m: u64, lo: int, hi: int, w: int, n: int)
    requires
        supported_width(w),
        0 <= n <= 64,
        m <= low_mask(w),
        forall|i: int| 0 <= i < w ==> (#[trigger] bit(m, O::spec_at(i, w)) <==> lo <= i < hi),
    ensures
        count_below(x & m, n) == count_pos::<O>(x, lo, hi, w, n),
    decreases n,
{
    if n > 0 {
        lemma_count_masked::<O>(x, m, lo, hi, w, n - 1);
        let p = n - 1;
        O::lemma_bijection(w);
        lemma_and_bits(x, m);
        lemma_bounded_bits(m, w);
        if p < w {
            let i = O::spec_index_of(p, w);
            assert(bit(m, O::spec_at(i, w)) <==> lo <= i < hi);
        }
    }
}

proof fn lemma_count_pos_empty<O: BitOrder>(x: u64, lo: int, hi: int, w: int, n: int)
    requires
        hi <= lo,
    ensures
        count_pos::<O>(x, lo, hi, w, n) == 0,
    decreases n,
{
    if n > 0 {
        lemma_count_pos_empty::<O>(x, lo, hi, w, n - 1);
    }
}

proof fn lemma_count_pos_step<O: BitOrder>(x: u64, lo: int, hi: int, w: int, n: int)
    requires
        supported_width(w),
        0 <= lo < hi <= w,
        0 <= n <= 64,
    ensures
        count_pos::<O>(x, lo, hi, w, n) == count_pos::<O>(x, lo, hi - 1, w, n) + if O::spec_at(
            hi - 1,
            w,
        ) < n && bit(x, O::spec_at(hi - 1, w)) {
            1nat
        } else {
            0nat
        },
    decreases n,
{
    O::lemma_bijection(w);
    if n > 0 {
        lemma_count_pos_step::<O>(x, lo, hi, w, n - 1);
        let p = n - 1;
        if p < w {
            let i = O::spec_index_of(p, w);
            assert(O::spec_at(i, w) == p);
            assert(O::spec_index_of(O::spec_at(hi - 1, w), w) == hi - 1);
        }
    }
}

proof fn lemma_count_pos_total<O: BitOrder, T: BitMemory>(
    elem: T,
    x: u64,
    lo: int,
    hi: int,
    value: bool,
)
    requires
        0 <= lo,
        hi <= T::width(),
        forall|k: int| 0 <= k < T::width() ==> #[trigger] bit(x, k) == (bit(elem.value(), k) == value),
    ensures
        count_pos::<O>(x, lo, hi, T::width(), 64) == spec_elem_count::<O, T>(elem, lo, hi, value),
    decreases hi - lo,
{
    T::lemma_width();
    let w = T::width();
    if hi <= lo {
        lemma_count_pos_empty::<O>(x, lo, hi, w, 64);
    } else {
        lemma_count_pos_total::<O, T>(elem, x, lo, hi - 1, value);
        lemma_count_pos_step::<O>(x, lo, hi, w, 64);
        O::lemma_bijection(w);
        let q = O::spec_at(hi - 1, w);
        assert(bit(x, q) == (bit(elem.value(), q) == value));
    }
}

/// Calls `u64::count_ones` of the standard library, which returns the
/// number of ones in the binary representation of `x`: the number of
/// positions below 64 at which `x` has a bit set.
#[verifier::external_body]
fn ones(x: u64) -> (r: u32)
    ensures
        r == count_below(x, 64),
{
    x.count_ones()
}

/// The number of bits of `elem` from `from` up to `upto` that are `value`.
/// The bits of `elem` outside that range, which may be a neighbour's, are
/// masked away before the count.
pub fn masked_count<O: BitOrder, T: BitMemory>(
    elem: T,
    from: Option<BitIdx<T>>,
    upto: Option<BitTail<T>>,
    value: bool,
) -> (r: usize)
    ensures
        r == spec_elem_count::<O, T>(elem, spec_from(from), spec_upto(upto), value),
        r <= 64,
{
    let mask: T = O::mask::<T>(from, upto);
    let word: u64 = if value {
        elem.to_u64()
    } else {
        !elem.to_u64()
    };
    let live: u64 = mask.to_u64();
    proof {
        let w = T::width();
        T::lemma_width();
        match from {
            Some(idx) => {
                use_type_invariant(&idx);
            },
            None => {},
        }
        match upto {
            Some(tail) => {
                use_type_invariant(&tail);
            },
            None => {},
        }
        mask.lemma_value();
        lemma_not_bits(elem.value());
        lemma_count_masked::<O>(word, live, spec_from(from), spec_upto(upto), w, 64);
        lemma_count_pos_total::<O, T>(elem, word, spec_from(from), spec_upto(upto), value);
        lemma_elem_count_bound::<O, T>(elem, spec_from(from), spec_upto(upto), value);
    }
    ones(word & live) as usize
}

/// The number of bits of `elem` that are `value`.
pub fn whole_count<O: BitOrder, T: BitMemory>(elem: T, value: bool) -> (r: usize)
    ensures
        r == spec_elem_count::<O, T>(elem, 0, T::width(), value),
        r <= T::width(),
{
    let word: u64 = if value {
        elem.to_u64()
    } else {
        !elem.to_u64()
    };
    let live: u64 = T::all().to_u64();
    proof {
        let w = T::width();
        T::lemma_width();
        O::lemma_bijection(w);
        lemma_low_mask_bits(w);
        lemma_not_bits(elem.value());
        lemma_count_masked::<O>(word, live, 0, w, w, 64);
        lemma_count_pos_total::<O, T>(elem, word, 0, w, value);
        lemma_elem_count_bound::<O, T>(elem, 0, w, value);
    }
    ones(word & live) as usize
}

impl<O: BitOrder, T: BitMemory> BitSlice<O, T> {
    /// The number of bits that are `value` in the elements of `mem` from
    /// `start` up to but not including `end`.
    pub open spec fn spec_body_count(mem: Seq<T>, start: int, end: int, value: bool) -> nat
        decreases end - start,
    {
        if end <= start {
            0
        } else {
            Self::spec_body_count(mem, start, end - 1, value) + spec_elem_count::<O, T>(
                mem[end - 1],
                0,
                T::width(),
                value,
            )
        }
    }

    /// The number of bits that are `value` among the first `k` bits of the
    /// view.
    pub open spec fn spec_count_upto(self, mem: Seq<T>, k: int, value: bool) -> nat {
        count_of(self.spec_bits(mem).take(k), value)
    }

    proof fn lemma_count_step(self, mem: Seq<T>, k: int, value: bool)
        requires
            0 < k <= self.spec_len(),
        ensures
            self.spec_count_upto(mem, k, value) == self.spec_count_upto(mem, k - 1, value)
                + if self.spec_bit(mem, k - 1) == value {
                1nat
            } else {
                0nat
            },
            self.spec_count_upto(mem, 0, value) == 0,
            self.spec_count_upto(mem, self.spec_len(), value) == count_of(
                self.spec_bits(mem),
                value,
            ),
    {
        let bits = self.spec_bits(mem);
        assert(bits.take(k).drop_last() =~= bits.take(k - 1));
        assert(bits.take(self.spec_len()) =~= bits);
        assert(bits.take(0).len() == 0);
    }

    proof fn lemma_count_elem(self, mem: Seq<T>, e: int, h: int, value: bool)
        requires
            self.wf(),
            self.spec_addr() <= e < self.spec_addr() + self.spec_elements(),
            self.spec_elem_from(e) <= h <= self.spec_elem_upto(e),
            self.spec_len() > 0,
        ensures
            0 <= self.spec_index_of(e, self.spec_elem_from(e)) <= self.spec_index_of(e, h)
                <= self.spec_len(),
            self.spec_count_upto(mem, self.spec_index_of(e, h), value) == self.spec_count_upto(
                mem,
                self.spec_index_of(e, self.spec_elem_from(e)),
                value,
            ) + spec_elem_count::<O, T>(mem[e], self.spec_elem_from(e), h, value),
        decreases h - self.spec_elem_from(e),
    {
        T::lemma_width();
        let from = self.spec_elem_from(e);
        self.lemma_elem_cover(e, 0);
        if h > from {
            self.lemma_count_elem(mem, e, h - 1, value);
            self.lemma_elem_cover(e, h - 1);
            self.lemma_covered(e, h - 1);
            self.lemma_count_step(mem, self.spec_index_of(e, h), value);
        } else {
            if from < self.spec_elem_upto(e) {
                self.lemma_elem_cover(e, from);
            } else {
                // Each element that a view of one bit or more touches holds
                // a bit of the view.
                self.lemma_elem_cover(e, 0);
                crate::pointer::lemma_spec_tail(self.spec_head(), self.spec_len(), T::width());
                assert(false);
            }
        }
    }

    proof fn lemma_count_body(self, mem: Seq<T>, start: int, end: int, value: bool)
        requires
            self.wf(),
            self.spec_len() > 0,
            self.spec_addr() <= start <= end <= self.spec_addr() + self.spec_elements(),
            forall|e: int|
                start <= e < end ==> self.spec_elem_from(e) == 0 && self.spec_elem_upto(e)
                    == T::width(),
        ensures
            start < end ==> 0 <= self.spec_index_of(start, 0) <= self.spec_index_of(end, 0)
                <= self.spec_len(),
            start < end ==> self.spec_count_upto(mem, self.spec_index_of(end, 0), value)
                == self.spec_count_upto(mem, self.spec_index_of(start, 0), value)
                + Self::spec_body_count(mem, start, end, value),
            start == end ==> Self::spec_body_count(mem, start, end, value) == 0,
        decreases end - start,
    {
        let w = T::width();
        if start < end {
            self.lemma_count_body(mem, start, end - 1, value);
            self.lemma_count_elem(mem, end - 1, w, value);
            assert(self.spec_index_of(end - 1, w) == self.spec_index_of(end, 0)) by {
                assert((end - 1 - self.spec_addr()) * w + w == (end - self.spec_addr()) * w)
                    by (nonlinear_arith);
            }
        }
    }

    proof fn lemma_body_front(mem: Seq<T>, start: int, end: int, value: bool)
        requires
            start < end,
        ensures
            Self::spec_body_count(mem, start, end, value) == spec_elem_count::<O, T>(
                mem[start],
                0,
                T::width(),
                value,
            ) + Self::spec_body_count(mem, start + 1, end, value),
        decreases end - start,
    {
        if start + 1 < end {
            Self::lemma_body_front(mem, start, end - 1, value);
        } else {
            assert(Self::spec_body_count(mem, start, start, value) == 0);
            assert(Self::spec_body_count(mem, start + 1, end, value) == 0);
        }
    }

    /// The count of a view is the sum of the counts of its elements: of
    /// the bits from the head in the first, of the bits up to the tail in
    /// the last, and of every bit of those between.
    pub proof fn lemma_count_by_elems(self, mem: Seq<T>, value: bool)
        requires
            self.wf(),
            self.spec_len() > 0,
        ensures
            self.spec_elements() >= 1,
            self.spec_elements() == 1 ==> count_of(self.spec_bits(mem), value) == spec_elem_count::<
                O,
                T,
            >(mem[self.spec_addr()], self.spec_head(), self.spec_tail(), value),
            self.spec_elements() >= 2 ==> count_of(self.spec_bits(mem), value) == spec_elem_count::<
                O,
                T,
            >(mem[self.spec_addr()], self.spec_head(), T::width(), value) + Self::spec_body_count(
                mem,
                self.spec_addr() + 1,
                self.spec_addr() + self.spec_elements() - 1,
                value,
            ) + spec_elem_count::<O, T>(
                mem[self.spec_addr() + self.spec_elements() - 1],
                0,
                self.spec_tail(),
                value,
            ),
    {
        T::lemma_width();
        let w = T::width();
        let first = self.spec_addr();
        let count = self.spec_elements();
        let last = first + count - 1;
        crate::pointer::lemma_spec_tail(self.spec_head(), self.spec_len(), w);
        lemma_spec_elts(self.spec_head() + self.spec_len(), w);
        self.lemma_count_step(mem, self.spec_len(), value);
        assert((first - first) * w == 0);
        assert(self.spec_index_of(first, self.spec_head()) == 0);
        assert(self.spec_index_of(last, self.spec_tail()) == self.spec_len()) by {
            assert((last - first) * w == w * (count - 1)) by (nonlinear_arith)
                requires
                    last - first == count - 1,
            ;
        }
        if count == 1 {
            self.lemma_count_elem(mem, first, self.spec_tail(), value);
        } else {
            self.lemma_count_elem(mem, first, w, value);
            self.lemma_count_body(mem, first + 1, last, value);
            self.lemma_count_elem(mem, last, self.spec_tail(), value);
            assert(self.spec_index_of(first, w) == self.spec_index_of(first + 1, 0)) by {
                assert((first + 1 - first) * w == w) by (nonlinear_arith);
            }
        }
    }

    fn body_count(mem: &[T], start: usize, end: usize, value: bool) -> (r: usize)
        requires
            start <= end <= mem@.len(),
            (end - start) * T::width() <= usize::MAX,
        ensures
            r == Self::spec_body_count(mem@, start as int, end as int, value),
            r <= (end - start) * T::width(),
    {
        let mut at: usize = start;
        let mut sum: usize = 0;
        while at < end
            invariant
                start <= at <= end <= mem@.len(),
                (end - start) * T::width() <= usize::MAX,
                sum == Self::spec_body_count(mem@, start as int, at as int, value),
                sum <= (at - start) * T::width(),
            decreases end - at,
        {
            let one: usize = whole_count::<O, T>(mem[at], value);
            proof {
                T::lemma_width();
                lemma_scale((at - start) + 1, (end - start) + 1, T::width());
                lemma_scale((at - start) + 1, (end - start), T::width());
                assert(((at - start) + 1) * T::width() == (at - start) * T::width() + T::width())
                    by (nonlinear_arith);
            }
            sum = sum + one;
            at = at + 1;
        }
        sum
    }

    fn count(&self, mem: &[T], value: bool) -> (r: usize)
        requires
            self.spec_within(mem@),
        ensures
            r == count_of(self.spec_bits(mem@), value),
    {
        proof {
            use_type_invariant(self);
            T::lemma_width();
            self.spec_bitptr().lemma_spec_domain();
            let w = T::width();
            let first = self.spec_addr();
            let count = self.spec_elements();
            lemma_spec_elts(self.spec_head() + self.spec_len(), w);
            lemma_scale(count - 1, count, w);
            lemma_scale(count - 2, count, w);
            assert((count - 1) * w == count * w - w) by (nonlinear_arith);
            lemma_count_of_bound(self.spec_bits(mem@), value);
            if self.spec_len() > 0 {
                self.lemma_count_by_elems(mem@, value);
                lemma_elem_count_bound::<O, T>(mem@[first], self.spec_head(), w, value);
                lemma_elem_count_bound::<O, T>(
                    mem@[first],
                    self.spec_head(),
                    self.spec_tail(),
                    value,
                );
                lemma_elem_count_bound::<O, T>(mem@[first + count - 1], 0, self.spec_tail(), value);
                if count >= 2 {
                    Self::lemma_body_front(mem@, first, first + count - 1, value);
                    Self::lemma_body_front(mem@, first, first + count, value);
                    assert(Self::spec_body_count(mem@, first + 1, first + count, value)
                        == Self::spec_body_count(mem@, first + 1, first + count - 1, value)
                        + spec_elem_count::<O, T>(mem@[first + count - 1], 0, w, value));
                } else {
                    assert(Self::spec_body_count(mem@, first, first + 1, value)
                        == Self::spec_body_count(mem@, first, first, value) + spec_elem_count::<
                        O,
                        T,
                    >(mem@[first], 0, w, value));
                    assert(Self::spec_body_count(mem@, first, first, value) == 0);
                    assert(Self::spec_body_count(mem@, first + 1, first + 1, value) == 0);
                }
            } else {
                assert(self.spec_bits(mem@).len() == 0);
            }
        }
        match self.domain() {
            Domain::Empty => 0,
            Domain::Minor { head, elem, tail } => masked_count::<O, T>(
                mem[elem],
                Some(head),
                Some(tail),
                value,
            ),
            Domain::Major { head, left, body, right, tail } => {
                let first: usize = masked_count::<O, T>(mem[left], Some(head), None, value);
                let middle: usize = Self::body_count(mem, body.start, body.end, value);
                let last: usize = masked_count::<O, T>(mem[right], None, Some(tail), value);
                first + middle + last
            },
            Domain::PartialHead { head, elem, body } => {
                let first: usize = masked_count::<O, T>(mem[elem], Some(head), None, value);
                let rest: usize = Self::body_count(mem, body.start, body.end, value);
                first + rest
            },
            Domain::PartialTail { body, elem, tail } => {
                let rest: usize = Self::body_count(mem, body.start, body.end, value);
                let last: usize = masked_count::<O, T>(mem[elem], None, Some(tail), value);
                rest + last
            },
            Domain::Spanning { body } => Self::body_count(mem, body.start, body.end, value),
        }
    }

    /// The number of bits of the view that are set.
    pub fn count_ones(&self, mem: &[T]) -> (r: usize)
        requires
            self.spec_within(mem@),
        ensures
            r == count_of(self.spec_bits(mem@), true),
    {
        self.count(mem, true)
    }

    /// The number of bits of the view that are clear.
    pub fn count_zeros(&self, mem: &[T]) -> (r: usize)
        requires
            self.spec_within(mem@),
        ensures
            r == count_of(self.spec_bits(mem@), false),
    {
        self.count(mem, false)
    }
}

} // verus!
