//! Reductions over the bits of a view, and filling a view with one value.
//!
//! Each goes over the view element by element.  An edge element is masked
//! first, so that the bits of a neighbour in it play no part; the elements
//! of the body are taken whole.
use crate::domain::Domain;
use crate::mem::{
    elem_bit, masked_all, masked_any, masked_fill, spec_elem_all, spec_elem_any, whole_all,
    whole_any, whole_fill, BitMemory,
};
use crate::order::BitOrder;
use crate::slice::BitSlice;
use vstd::prelude::*;

verus! {

impl<O: BitOrder, T: BitMemory> BitSlice<O, T> {
    /// Whether every bit of the view is set in `mem`.
    pub open spec fn spec_all(self, mem: Seq<T>) -> bool {
        forall|k: int| 0 <= k < self.spec_len() ==> self.spec_bit(mem, k)
    }

    /// Whether some bit of the view is set in `mem`.
    pub open spec fn spec_any(self, mem: Seq<T>) -> bool {
        exists|k: int| 0 <= k < self.spec_len() && self.spec_bit(mem, k)
    }

    /// Every bit of the view is set exactly when, in each element the view
    /// touches, every bit that belongs to the view is set.
    pub proof fn lemma_all_by_elems(self, mem: Seq<T>)
        requires
            self.wf(),
        ensures
            self.spec_all(mem) <==> forall|e: int|
                self.spec_addr() <= e < self.spec_addr() + self.spec_elements() ==> spec_elem_all::<
                    O,
                    T,
                >(#[trigger] mem[e], self.spec_elem_from(e), self.spec_elem_upto(e)),
    {
        if self.spec_all(mem) {
            assert forall|e: int|
                self.spec_addr() <= e < self.spec_addr()
                    + self.spec_elements() implies spec_elem_all::<O, T>(
                #[trigger] mem[e],
                self.spec_elem_from(e),
                self.spec_elem_upto(e),
            ) by {
                assert forall|i: int|
                    self.spec_elem_from(e) <= i < self.spec_elem_upto(e) && 0 <= i
                        < T::width() implies elem_bit::<O, T>(mem[e], i) by {
                    self.lemma_elem_cover(e, i);
                    self.lemma_covered(e, i);
                    assert(self.spec_bit(mem, self.spec_index_of(e, i)));
                }
            }
        }
        if forall|e: int|
            self.spec_addr() <= e < self.spec_addr() + self.spec_elements() ==> spec_elem_all::<
                O,
                T,
            >(#[trigger] mem[e], self.spec_elem_from(e), self.spec_elem_upto(e)) {
            assert forall|k: int| 0 <= k < self.spec_len() implies self.spec_bit(mem, k) by {
                self.lemma_coords(k);
                let e = self.spec_addr() + (self.spec_head() + k) / T::width();
                let i = (self.spec_head() + k) % T::width();
                self.lemma_elem_cover(e, i);
                assert(spec_elem_all::<O, T>(
                    mem[e],
                    self.spec_elem_from(e),
                    self.spec_elem_upto(e),
                ));
            }
        }
    }

    /// Some bit of the view is set exactly when, in some element the view
    /// touches, some bit that belongs to the view is set.
    pub proof fn lemma_any_by_elems(self, mem: Seq<T>)
        requires
            self.wf(),
        ensures
            self.spec_any(mem) <==> exists|e: int|
                self.spec_addr() <= e < self.spec_addr() + self.spec_elements() && spec_elem_any::<
                    O,
                    T,
                >(#[trigger] mem[e], self.spec_elem_from(e), self.spec_elem_upto(e)),
    {
        if self.spec_any(mem) {
            let k = choose|k: int| 0 <= k < self.spec_len() && self.spec_bit(mem, k);
            self.lemma_coords(k);
            let e = self.spec_addr() + (self.spec_head() + k) / T::width();
            let i = (self.spec_head() + k) % T::width();
            self.lemma_elem_cover(e, i);
            assert(elem_bit::<O, T>(mem[e], i));
            assert(spec_elem_any::<O, T>(mem[e], self.spec_elem_from(e), self.spec_elem_upto(e)));
        }
        if exists|e: int|
            self.spec_addr() <= e < self.spec_addr() + self.spec_elements() && spec_elem_any::<
                O,
                T,
            >(#[trigger] mem[e], self.spec_elem_from(e), self.spec_elem_upto(e)) {
            let e = choose|e: int|
                self.spec_addr() <= e < self.spec_addr() + self.spec_elements() && spec_elem_any::<
                    O,
                    T,
                >(#[trigger] mem[e], self.spec_elem_from(e), self.spec_elem_upto(e));
            let i = choose|i: int|
                self.spec_elem_from(e) <= i < self.spec_elem_upto(e) && 0 <= i < T::width()
                    && elem_bit::<O, T>(mem[e], i);
            self.lemma_elem_cover(e, i);
            self.lemma_covered(e, i);
            assert(self.spec_bit(mem, self.spec_index_of(e, i)));
        }
    }

    fn body_all(mem: &[T], start: usize, end: usize) -> (r: bool)
        requires
            start <= end <= mem@.len(),
        ensures
            r == forall|e: int|
                start <= e < end ==> spec_elem_all::<O, T>(#[trigger] mem@[e], 0, T::width()),
    {
        let mut at: usize = start;
        while at < end
            invariant
                start <= at <= end <= mem@.len(),
                forall|e: int|
                    start <= e < at ==> spec_elem_all::<O, T>(#[trigger] mem@[e], 0, T::width()),
            decreases end - at,
        {
            if !whole_all::<O, T>(mem[at]) {
                return false;
            }
            at = at + 1;
        }
        true
    }

    fn body_any(mem: &[T], start: usize, end: usize) -> (r: bool)
        requires
            start <= end <= mem@.len(),
        ensures
            r == exists|e: int|
                start <= e < end && spec_elem_any::<O, T>(#[trigger] mem@[e], 0, T::width()),
    {
        let mut at: usize = start;
        while at < end
            invariant
                start <= at <= end <= mem@.len(),
                forall|e: int|
                    start <= e < at ==> !spec_elem_any::<O, T>(#[trigger] mem@[e], 0, T::width()),
            decreases end - at,
        {
            if whole_any::<O, T>(mem[at]) {
                return true;
            }
            at = at + 1;
        }
        false
    }

    /// Whether every bit of the view is set.  The empty view has every bit
    /// set.
    pub fn all(&self, mem: &[T]) -> (r: bool)
        requires
            self.spec_within(mem@),
        ensures
            r == self.spec_all(mem@),
    {
        proof {
            use_type_invariant(self);
            self.spec_bitptr().lemma_spec_domain();
            self.lemma_all_by_elems(mem@);
        }
        match self.domain() {
            Domain::Empty => true,
            Domain::Minor { head, elem, tail } => masked_all::<O, T>(
                mem[elem],
                Some(head),
                Some(tail),
            ),
            Domain::Major { head, left, body, right, tail } => masked_all::<O, T>(
                mem[left],
                Some(head),
                None,
            ) && Self::body_all(mem, body.start, body.end) && masked_all::<O, T>(
                mem[right],
                None,
                Some(tail),
            ),
            Domain::PartialHead { head, elem, body } => masked_all::<O, T>(
                mem[elem],
                Some(head),
                None,
            ) && Self::body_all(mem, body.start, body.end),
            Domain::PartialTail { body, elem, tail } => Self::body_all(mem, body.start, body.end)
                && masked_all::<O, T>(mem[elem], None, Some(tail)),
            Domain::Spanning { body } => Self::body_all(mem, body.start, body.end),
        }
    }

    /// Whether some bit of the view is set.  The empty view has no bit
    /// set.
    pub fn any(&self, mem: &[T]) -> (r: bool)
        requires
            self.spec_within(mem@),
        ensures
            r == self.spec_any(mem@),
    {
        proof {
            use_type_invariant(self);
            self.spec_bitptr().lemma_spec_domain();
            self.lemma_any_by_elems(mem@);
        }
        match self.domain() {
            Domain::Empty => false,
            Domain::Minor { head, elem, tail } => masked_any::<O, T>(
                mem[elem],
                Some(head),
                Some(tail),
            ),
            Domain::Major { head, left, body, right, tail } => masked_any::<O, T>(
                mem[left],
                Some(head),
                None,
            ) || Self::body_any(mem, body.start, body.end) || masked_any::<O, T>(
                mem[right],
                None,
                Some(tail),
            ),
            Domain::PartialHead { head, elem, body } => masked_any::<O, T>(
                mem[elem],
                Some(head),
                None,
            ) || Self::body_any(mem, body.start, body.end),
            Domain::PartialTail { body, elem, tail } => Self::body_any(mem, body.start, body.end)
                || masked_any::<O, T>(mem[elem], None, Some(tail)),
            Domain::Spanning { body } => Self::body_any(mem, body.start, body.end),
        }
    }

    /// Whether some bit of the view is clear.
    pub fn not_all(&self, mem: &[T]) -> (r: bool)
        requires
            self.spec_within(mem@),
        ensures
            r == !self.spec_all(mem@),
    {
        !self.all(mem)
    }

    /// Whether every bit of the view is clear.
    pub fn not_any(&self, mem: &[T]) -> (r: bool)
        requires
            self.spec_within(mem@),
        ensures
            r == !self.spec_any(mem@),
    {
        !self.any(mem)
    }

    /// Whether some bit of the view is set and some bit is clear.
    pub fn some(&self, mem: &[T]) -> (r: bool)
        requires
            self.spec_within(mem@),
        ensures
            r == (self.spec_any(mem@) && !self.spec_all(mem@)),
    {
        self.any(mem) && self.not_all(mem)
    }

    /// If `after` differs from `before` only in that every bit of the view
    /// is `value`, said element by element, then the view reads as all
    /// `value` in `after` and no other bit has changed.
    proof fn lemma_filled(self, before: Seq<T>, after: Seq<T>, value: bool)
        requires
            self.wf(),
            self.spec_within(before),
            after.len() == before.len(),
            forall|e: int, i: int|
                0 <= e < before.len() && 0 <= i < T::width() ==> #[trigger] elem_bit::<O, T>(
                    after[e],
                    i,
                ) == if self.spec_addr() <= e < self.spec_addr() + self.spec_elements()
                    && self.spec_elem_from(e) <= i < self.spec_elem_upto(e) {
                    value
                } else {
                    elem_bit::<O, T>(before[e], i)
                },
        ensures
            self.spec_bits(after) == Seq::new(self.spec_len() as nat, |k: int| value),
            self.spec_rest_kept(before, after),
    {
        assert forall|k: int| 0 <= k < self.spec_len() implies self.spec_bit(after, k)
            == value by {
            self.lemma_coords(k);
            let e = self.spec_addr() + (self.spec_head() + k) / T::width();
            let i = (self.spec_head() + k) % T::width();
            self.lemma_elem_cover(e, i);
        }
        assert(self.spec_bits(after) =~= Seq::new(self.spec_len() as nat, |k: int| value));
        assert forall|e: int, i: int|
            0 <= e < before.len() && 0 <= i < T::width() && !self.spec_covers(
                e,
                i,
            ) implies #[trigger] elem_bit::<O, T>(after[e], i) == elem_bit::<O, T>(
            before[e],
            i,
        ) by {
            self.lemma_elem_cover(e, i);
        }
    }

    fn body_fill(mem: &mut [T], start: usize, end: usize, value: bool)
        requires
            start <= end <= old(mem)@.len(),
        ensures
            final(mem)@.len() == old(mem)@.len(),
            forall|e: int, i: int|
                start <= e < end && 0 <= i < T::width() ==> #[trigger] elem_bit::<O, T>(
                    final(mem)@[e],
                    i,
                ) == value,
            forall|e: int|
                0 <= e < old(mem)@.len() && !(start <= e < end) ==> final(mem)@[e] == old(mem)@[e],
    {
        let mut at: usize = start;
        while at < end
            invariant
                start <= at <= end <= mem@.len(),
                mem@.len() == old(mem)@.len(),
                forall|e: int, i: int|
                    start <= e < at && 0 <= i < T::width() ==> #[trigger] elem_bit::<O, T>(
                        mem@[e],
                        i,
                    ) == value,
                forall|e: int|
                    0 <= e < old(mem)@.len() && !(start <= e < at) ==> mem@[e] == old(mem)@[e],
            decreases end - at,
        {
            mem[at] = whole_fill::<O, T>(value);
            at = at + 1;
        }
    }

    /// Sets every bit of the view to `value`, and leaves every other bit
    /// of `mem` as it was.
    pub fn set_all(&self, mem: &mut [T], value: bool)
        requires
            self.spec_within(old(mem)@),
        ensures
            self.spec_bits(final(mem)@) == Seq::new(self.spec_len() as nat, |k: int| value),
            self.spec_rest_kept(old(mem)@, final(mem)@),
    {
        proof {
            use_type_invariant(self);
            self.spec_bitptr().lemma_spec_domain();
        }
        match self.domain() {
            Domain::Empty => {},
            Domain::Minor { head, elem, tail } => {
                mem[elem] = masked_fill::<O, T>(mem[elem], Some(head), Some(tail), value);
            },
            Domain::Major { head, left, body, right, tail } => {
                mem[left] = masked_fill::<O, T>(mem[left], Some(head), None, value);
                Self::body_fill(mem, body.start, body.end, value);
                mem[right] = masked_fill::<O, T>(mem[right], None, Some(tail), value);
            },
            Domain::PartialHead { head, elem, body } => {
                mem[elem] = masked_fill::<O, T>(mem[elem], Some(head), None, value);
                Self::body_fill(mem, body.start, body.end, value);
            },
            Domain::PartialTail { body, elem, tail } => {
                Self::body_fill(mem, body.start, body.end, value);
                mem[elem] = masked_fill::<O, T>(mem[elem], None, Some(tail), value);
            },
            Domain::Spanning { body } => {
                Self::body_fill(mem, body.start, body.end, value);
            },
        }
        proof {
            assert forall|e: int, i: int|
                0 <= e < old(mem)@.len() && 0 <= i < T::width() implies #[trigger] elem_bit::<
                O,
                T,
            >(mem@[e], i) == if self.spec_addr() <= e < self.spec_addr() + self.spec_elements()
                && self.spec_elem_from(e) <= i < self.spec_elem_upto(e) {
                value
            } else {
                elem_bit::<O, T>(old(mem)@[e], i)
            } by {
                self.lemma_elem_cover(e, i);
            }
            self.lemma_filled(old(mem)@, mem@, value);
        }
    }
}

} // verus!
