//! Bit fields: moving up to one element's width of bits between a view and
//! a plain integer.
use crate::bits::{
    bit, lemma_and_bits, lemma_bits_equal, lemma_bounded_bits, lemma_low_mask_bits,
    lemma_masked_bound, lemma_or_bits, lemma_shl_bits, lemma_shr_bits, low_mask, mask_below,
};
use crate::domain::Domain;
use crate::mem::{elem_bit, write_bits, BitMemory};
use crate::order::{BitOrder, Lsb0, Msb0};
use crate::slice::BitSlice;
use vstd::prelude::*;

verus! {

/// Why a bit field could not be read or written.
#[derive(Clone, Copy, Debug, PartialEq, Eq)]
pub enum FieldError {
    /// The view holds no bits.
    Empty,
    /// The view holds more bits than an element.
    TooWide,
}

/// The number of bits of a mask of `len` bits in an element of width `w`:
/// `len`, but no more than `w`.
pub open spec fn spec_mask_len(len: int, w: int) -> int {
    if len < w {
        len
    } else {
        w
    }
}

/// The element whose `len` least significant bits are set and no others.
/// Where `len` is the width or more, every bit is set.
pub fn mask_for<T: BitMemory>(len: usize) -> (mask: T)
    ensures
        mask.value() == low_mask(spec_mask_len(len as int, T::width())),
{
    proof {
        T::lemma_width();
    }
    if len >= T::bits() as usize {
        T::all()
    } else {
        let low: u64 = mask_below(len as u8);
        proof {
            lemma_low_mask_bits(len as int);
            lemma_low_mask_bits(T::width());
            lemma_and_bits(low, low_mask(T::width()));
            lemma_bits_equal(low & low_mask(T::width()), low);
        }
        T::from_u64(low)
    }
}

/// Changes the width of an integer and keeps its low bits: widening keeps
/// the value, narrowing keeps as many low bits as the narrower type has.
pub fn resize<T: BitMemory, U: BitMemory>(value: T) -> (r: U)
    ensures
        r.value() == value.value() & low_mask(U::width()),
        T::width() <= U::width() ==> r.value() == value.value(),
{
    proof {
        T::lemma_width();
        U::lemma_width();
        value.lemma_value();
        if T::width() <= U::width() {
            let v = value.value();
            lemma_bounded_bits(v, T::width());
            lemma_low_mask_bits(U::width());
            lemma_and_bits(v, low_mask(U::width()));
            lemma_bits_equal(v & low_mask(U::width()), v);
        }
    }
    U::from_u64(value.to_u64())
}

/// Where a bit lies that is outside a view no longer than an element: in
/// the first element of the view, before the head or past the last bit; in
/// the element after it, at or after the tail.
proof fn lemma_uncovered<T: BitMemory>(addr: int, head: int, len: int, e: int, i: int)
    requires
        0 <= head < T::width(),
        0 <= i < T::width(),
        1 <= len <= T::width(),
        !(0 <= (e - addr) * T::width() + i - head < len),
    ensures
        e == addr ==> i < head || i >= head + len,
        e == addr + 1 ==> i >= head + len - T::width(),
{
    T::lemma_width();
    let w = T::width();
    assert((addr - addr) * w == 0);
    assert((addr + 1 - addr) * w == w) by (nonlinear_arith);
}

/// The `len` low bits of `value`, the least significant first.
pub open spec fn lsb_bits(value: u64, len: int) -> Seq<bool> {
    Seq::new(len as nat, |k: int| bit(value, k))
}

/// The `len` low bits of `value`, the most significant first.
pub open spec fn msb_bits(value: u64, len: int) -> Seq<bool> {
    Seq::new(len as nat, |k: int| bit(value, len - 1 - k))
}

/// Reading and writing a view of at most one element's width as an
/// integer.
///
/// The bits of the view sit against the least significant edge of the
/// integer, in the order in which they lie in memory.  Each implementation
/// says in which order that is.
pub trait BitField<T: BitMemory> {
    /// The number of bits in the view.
    spec fn spec_field_len(&self) -> int;

    /// Whether the array `mem` holds every element the view touches.
    spec fn spec_field_within(&self, mem: Seq<T>) -> bool;

    /// Reads the bits of the view into the low bits of an element.
    ///
    /// Returns `None` when the view is empty or wider than an element.
    fn load(&self, mem: &[T]) -> (r: Option<T>)
        requires
            self.spec_field_within(mem@),
        ensures
            r is Some <==> 1 <= self.spec_field_len() <= T::width(),
    ;

    /// Writes the low bits of `value` to the bits of the view, and leaves
    /// every other bit of `mem` as it was.
    ///
    /// Fails, and leaves `mem` as it was, when the view is empty or wider
    /// than an element.
    fn store(&self, mem: &mut [T], value: T) -> (r: Result<(), FieldError>)
        requires
            self.spec_field_within(old(mem)@),
        ensures
            r == spec_store_result(self.spec_field_len(), T::width()),
            r is Err ==> final(mem)@ == old(mem)@,
    ;
}

/// What `store` returns for a view of `len` bits over elements of width
/// `w`.
pub open spec fn spec_store_result(len: int, w: int) -> Result<(), FieldError> {
    if len == 0 {
        Err(FieldError::Empty)
    } else if len > w {
        Err(FieldError::TooWide)
    } else {
        Ok(())
    }
}

/// A value is determined by its low `len` bits when it has no others.
proof fn lemma_low_bits(len: int, value: u64, loaded: u64)
    requires
        1 <= len <= 64,
        loaded <= low_mask(len),
        forall|k: int| 0 <= k < len ==> bit(loaded, k) == bit(value, k),
    ensures
        loaded == value & low_mask(len),
{
    lemma_low_mask_bits(len);
    lemma_and_bits(value, low_mask(len));
    lemma_bounded_bits(loaded, len);
    assert forall|k: int| 0 <= k < 64 implies bit(loaded, k) == bit(value & low_mask(len), k) by {
        if k < len {
            assert(bit(low_mask(len), k));
        } else {
            assert(!bit(low_mask(len), k));
            assert(!bit(loaded, k));
        }
    }
    lemma_bits_equal(loaded, value & low_mask(len));
}

/// Storing and then loading in ascending order gives back the value
/// without its bits at and above the length of the view: if `mem` is what
/// `store` leaves for `value` and `loaded` is what `load` returns from it,
/// then `loaded` is `value` under the mask of the length.
pub proof fn lemma_store_load_lsb0<T: BitMemory>(
    view: BitSlice<Lsb0, T>,
    mem: Seq<T>,
    value: T,
    loaded: T,
)
    requires
        1 <= view.spec_len() <= T::width(),
        view.spec_bits(mem) == lsb_bits(value.value(), view.spec_len()),
        lsb_bits(loaded.value(), view.spec_len()) == view.spec_bits(mem),
        loaded.value() <= low_mask(view.spec_len()),
    ensures
        loaded.value() == value.value() & low_mask(view.spec_len()),
        low_mask(view.spec_len()) == low_mask(spec_mask_len(view.spec_len(), T::width())),
{
    T::lemma_width();
    let len = view.spec_len();
    assert forall|k: int| 0 <= k < len implies bit(loaded.value(), k) == bit(value.value(), k) by {
        assert(lsb_bits(loaded.value(), len)[k] == bit(loaded.value(), k));
        assert(lsb_bits(value.value(), len)[k] == bit(value.value(), k));
    }
    lemma_low_bits(len, value.value(), loaded.value());
}

/// Storing and then loading in descending order gives back the value
/// without its bits at and above the length of the view: if `mem` is what
/// `store` leaves for `value` and `loaded` is what `load` returns from it,
/// then `loaded` is `value` under the mask of the length.
pub proof fn lemma_store_load_msb0<T: BitMemory>(
    view: BitSlice<Msb0, T>,
    mem: Seq<T>,
    value: T,
    loaded: T,
)
    requires
        1 <= view.spec_len() <= T::width(),
        view.spec_bits(mem) == msb_bits(value.value(), view.spec_len()),
        msb_bits(loaded.value(), view.spec_len()) == view.spec_bits(mem),
        loaded.value() <= low_mask(view.spec_len()),
    ensures
        loaded.value() == value.value() & low_mask(view.spec_len()),
        low_mask(view.spec_len()) == low_mask(spec_mask_len(view.spec_len(), T::width())),
{
    T::lemma_width();
    let len = view.spec_len();
    assert forall|k: int| 0 <= k < len implies bit(loaded.value(), k) == bit(value.value(), k) by {
        assert(msb_bits(loaded.value(), len)[len - 1 - k] == bit(loaded.value(), k));
        assert(msb_bits(value.value(), len)[len - 1 - k] == bit(value.value(), k));
    }
    lemma_low_bits(len, value.value(), loaded.value());
}

impl<T: BitMemory> BitField<T> for BitSlice<Lsb0, T> {
    open spec fn spec_field_len(&self) -> int {
        self.spec_len()
    }

    open spec fn spec_field_within(&self, mem: Seq<T>) -> bool {
        self.spec_within(mem)
    }

    /// The first bit of the view becomes the least significant bit of the
    /// result; the bits of the result above the length of the view are
    /// zero.
    fn load(&self, mem: &[T]) -> (r: Option<T>)
        ensures
            r matches Some(v) ==> lsb_bits(v.value(), self.spec_len()) == self.spec_bits(mem@)
                && v.value() <= low_mask(self.spec_len()),
    {
        let len: usize = self.len();
        if len == 0 || len > T::bits() as usize {
            return None;
        }
        let low: u64 = mask_for::<T>(len).to_u64();
        let ghost w = T::width();
        proof {
            use_type_invariant(self);
            T::lemma_width();
            self.lemma_field_coords(0);
            self.spec_bitptr().lemma_spec_domain();
            lemma_low_mask_bits(len as int);
        }
        let raw: u64 = match self.domain() {
            Domain::Minor { head, elem, tail } => {
                let shift: u8 = head.get();
                let whole: u64 = mem[elem].to_u64();
                proof {
                    lemma_shr_bits(whole, shift as u64);
                }
                whole >> shift
            },
            Domain::Major { head, left, body, right, tail } => {
                let shift: u8 = head.get();
                let mid: u8 = T::bits() - shift;
                let first: u64 = mem[left].to_u64();
                let second: u64 = mem[right].to_u64();
                proof {
                    mem@[left as int].lemma_value();
                    lemma_bounded_bits(first, w);
                    lemma_shr_bits(first, shift as u64);
                    lemma_shl_bits(second, mid as u64);
                    lemma_or_bits(second << mid, first >> shift);
                }
                (second << mid) | (first >> shift)
            },
            Domain::PartialHead { head, elem, body } => {
                let shift: u8 = head.get();
                let whole: u64 = mem[elem].to_u64();
                proof {
                    lemma_shr_bits(whole, shift as u64);
                }
                whole >> shift
            },
            Domain::PartialTail { body, elem, tail } => mem[elem].to_u64(),
            Domain::Spanning { body } => mem[body.start].to_u64(),
            Domain::Empty => 0,
        };
        let word: u64 = raw & low;
        proof {
            lemma_and_bits(raw, low);
            lemma_masked_bound(raw, len as int);
            assert forall|k: int| 0 <= k < len implies bit(word, k) == self.spec_bit(mem@, k) by {
                self.lemma_field_coords(k);
            }
            assert(lsb_bits(word, self.spec_len()) =~= self.spec_bits(mem@));
            lemma_low_mask_bits(w);
            lemma_bounded_bits(word, len as int);
            lemma_and_bits(word, low_mask(w));
            lemma_bits_equal(word & low_mask(w), word);
        }
        Some(T::from_u64(word))
    }

    /// The least significant bit of `value` becomes the first bit of the
    /// view.
    fn store(&self, mem: &mut [T], value: T) -> (r: Result<(), FieldError>)
        ensures
            r is Ok ==> self.spec_bits(final(mem)@) == lsb_bits(value.value(), self.spec_len())
                && self.spec_rest_kept(old(mem)@, final(mem)@),
    {
        let len: usize = self.len();
        if len == 0 {
            return Err(FieldError::Empty);
        }
        if len > T::bits() as usize {
            return Err(FieldError::TooWide);
        }
        let low: u64 = mask_for::<T>(len).to_u64();
        let word: u64 = value.to_u64() & low;
        let ghost w = T::width();
        proof {
            use_type_invariant(self);
            T::lemma_width();
            self.lemma_field_coords(0);
            self.spec_bitptr().lemma_spec_domain();
            lemma_low_mask_bits(len as int);
            lemma_and_bits(value.value(), low);
        }
        match self.domain() {
            Domain::Minor { head, elem, tail } => {
                let shift: u8 = head.get();
                let mask: T = Lsb0::mask::<T>(Some(head), Some(tail));
                proof {
                    lemma_shl_bits(word, shift as u64);
                }
                mem[elem] = write_bits(mem[elem], mask, word << shift);
            },
            Domain::Major { head, left, body, right, tail } => {
                let shift: u8 = head.get();
                let mid: u8 = T::bits() - shift;
                let left_mask: T = Lsb0::mask::<T>(Some(head), None);
                let right_mask: T = Lsb0::mask::<T>(None, Some(tail));
                proof {
                    lemma_shl_bits(word, shift as u64);
                    lemma_shr_bits(word, mid as u64);
                }
                mem[left] = write_bits(mem[left], left_mask, word << shift);
                mem[right] = write_bits(mem[right], right_mask, word >> mid);
            },
            Domain::PartialHead { head, elem, body } => {
                let shift: u8 = head.get();
                let mask: T = Lsb0::mask::<T>(Some(head), None);
                proof {
                    lemma_shl_bits(word, shift as u64);
                }
                mem[elem] = write_bits(mem[elem], mask, word << shift);
            },
            Domain::PartialTail { body, elem, tail } => {
                let mask: T = Lsb0::mask::<T>(None, Some(tail));
                mem[elem] = write_bits(mem[elem], mask, word);
            },
            Domain::Spanning { body } => {
                let mask: T = T::all();
                proof {
                    lemma_low_mask_bits(w);
                }
                mem[body.start] = write_bits(mem[body.start], mask, word);
            },
            Domain::Empty => {},
        }
        proof {
            assert forall|k: int| 0 <= k < len implies self.spec_bit(mem@, k) == bit(
                value.value(),
                k,
            ) by {
                self.lemma_field_coords(k);
            }
            assert(self.spec_bits(mem@) =~= lsb_bits(value.value(), self.spec_len()));
            assert forall|e: int, i: int|
                0 <= e < old(mem)@.len() && 0 <= i < w && !self.spec_covers(e, i) implies #[trigger] elem_bit::<
                Lsb0,
                T,
            >(mem@[e], i) == elem_bit::<Lsb0, T>(old(mem)@[e], i) by {
                lemma_uncovered::<T>(self.spec_addr(), self.spec_head(), self.spec_len(), e, i);
            }
        }
        Ok(())
    }
}

impl<T: BitMemory> BitField<T> for BitSlice<Msb0, T> {
    open spec fn spec_field_len(&self) -> int {
        self.spec_len()
    }

    open spec fn spec_field_within(&self, mem: Seq<T>) -> bool {
        self.spec_within(mem)
    }

    /// The last bit of the view becomes the least significant bit of the
    /// result, so that the result reads in memory as the view does; the
    /// bits of the result above the length of the view are zero.
    fn load(&self, mem: &[T]) -> (r: Option<T>)
        ensures
            r matches Some(v) ==> msb_bits(v.value(), self.spec_len()) == self.spec_bits(mem@)
                && v.value() <= low_mask(self.spec_len()),
    {
        let len: usize = self.len();
        if len == 0 || len > T::bits() as usize {
            return None;
        }
        let low: u64 = mask_for::<T>(len).to_u64();
        let ghost w = T::width();
        proof {
            use_type_invariant(self);
            T::lemma_width();
            self.lemma_field_coords(0);
            self.spec_bitptr().lemma_spec_domain();
            lemma_low_mask_bits(len as int);
        }
        let raw: u64 = match self.domain() {
            Domain::Minor { head, elem, tail } => {
                let shift: u8 = T::bits() - tail.get();
                let whole: u64 = mem[elem].to_u64();
                proof {
                    lemma_shr_bits(whole, shift as u64);
                }
                whole >> shift
            },
            Domain::Major { head, left, body, right, tail } => {
                let up: u8 = tail.get();
                let down: u8 = T::bits() - up;
                let first: u64 = mem[left].to_u64();
                let second: u64 = mem[right].to_u64();
                proof {
                    mem@[right as int].lemma_value();
                    lemma_bounded_bits(second, w);
                    lemma_shl_bits(first, up as u64);
                    lemma_shr_bits(second, down as u64);
                    lemma_or_bits(first << up, second >> down);
                }
                (first << up) | (second >> down)
            },
            Domain::PartialHead { head, elem, body } => mem[elem].to_u64(),
            Domain::PartialTail { body, elem, tail } => {
                let shift: u8 = T::bits() - tail.get();
                let whole: u64 = mem[elem].to_u64();
                proof {
                    lemma_shr_bits(whole, shift as u64);
                }
                whole >> shift
            },
            Domain::Spanning { body } => mem[body.start].to_u64(),
            Domain::Empty => 0,
        };
        let word: u64 = raw & low;
        proof {
            lemma_and_bits(raw, low);
            lemma_masked_bound(raw, len as int);
            assert forall|k: int| 0 <= k < len implies bit(word, len - 1 - k) == self.spec_bit(
                mem@,
                k,
            ) by {
                self.lemma_field_coords(k);
            }
            assert(msb_bits(word, self.spec_len()) =~= self.spec_bits(mem@));
            lemma_low_mask_bits(w);
            lemma_bounded_bits(word, len as int);
            lemma_and_bits(word, low_mask(w));
            lemma_bits_equal(word & low_mask(w), word);
        }
        Some(T::from_u64(word))
    }

    /// The least significant bit of `value` becomes the last bit of the
    /// view.
    fn store(&self, mem: &mut [T], value: T) -> (r: Result<(), FieldError>)
        ensures
            r is Ok ==> self.spec_bits(final(mem)@) == msb_bits(value.value(), self.spec_len())
                && self.spec_rest_kept(old(mem)@, final(mem)@),
    {
        let len: usize = self.len();
        if len == 0 {
            return Err(FieldError::Empty);
        }
        if len > T::bits() as usize {
            return Err(FieldError::TooWide);
        }
        let low: u64 = mask_for::<T>(len).to_u64();
        let word: u64 = value.to_u64() & low;
        let ghost w = T::width();
        proof {
            use_type_invariant(self);
            T::lemma_width();
            self.lemma_field_coords(0);
            self.spec_bitptr().lemma_spec_domain();
            lemma_low_mask_bits(len as int);
            lemma_and_bits(value.value(), low);
        }
        match self.domain() {
            Domain::Minor { head, elem, tail } => {
                let shift: u8 = T::bits() - tail.get();
                let mask: T = Msb0::mask::<T>(Some(head), Some(tail));
                proof {
                    lemma_shl_bits(word, shift as u64);
                }
                mem[elem] = write_bits(mem[elem], mask, word << shift);
            },
            Domain::Major { head, left, body, right, tail } => {
                let down: u8 = tail.get();
                let up: u8 = T::bits() - down;
                let left_mask: T = Msb0::mask::<T>(Some(head), None);
                let right_mask: T = Msb0::mask::<T>(None, Some(tail));
                proof {
                    lemma_shr_bits(word, down as u64);
                    lemma_shl_bits(word, up as u64);
                }
                mem[left] = write_bits(mem[left], left_mask, word >> down);
                mem[right] = write_bits(mem[right], right_mask, word << up);
            },
            Domain::PartialHead { head, elem, body } => {
                let mask: T = Msb0::mask::<T>(Some(head), None);
                mem[elem] = write_bits(mem[elem], mask, word);
            },
            Domain::PartialTail { body, elem, tail } => {
                let shift: u8 = T::bits() - tail.get();
                let mask: T = Msb0::mask::<T>(None, Some(tail));
                proof {
                    lemma_shl_bits(word, shift as u64);
                }
                mem[elem] = write_bits(mem[elem], mask, word << shift);
            },
            Domain::Spanning { body } => {
                let mask: T = T::all();
                proof {
                    lemma_low_mask_bits(w);
                }
                mem[body.start] = write_bits(mem[body.start], mask, word);
            },
            Domain::Empty => {},
        }
        proof {
            assert forall|k: int| 0 <= k < len implies self.spec_bit(mem@, k) == bit(
                value.value(),
                len - 1 - k,
            ) by {
                self.lemma_field_coords(k);
            }
            assert(self.spec_bits(mem@) =~= msb_bits(value.value(), self.spec_len()));
            assert forall|e: int, i: int|
                0 <= e < old(mem)@.len() && 0 <= i < w && !self.spec_covers(e, i) implies #[trigger] elem_bit::<
                Msb0,
                T,
            >(mem@[e], i) == elem_bit::<Msb0, T>(old(mem)@[e], i) by {
                lemma_uncovered::<T>(self.spec_addr(), self.spec_head(), self.spec_len(), e, i);
            }
        }
        Ok(())
    }
}

} // verus!
