//! Addition on views read as numbers.
use crate::mem::BitMemory;
use crate::order::BitOrder;
use crate::slice::BitSlice;
use vstd::arithmetic::power2::{lemma_pow2_unfold, pow2};
use vstd::prelude::*;

verus! {

/// The number that `bits` spells with its first bit as the least
/// significant.
pub open spec fn number(bits: Seq<bool>) -> nat
    decreases bits.len(),
{
    if bits.len() == 0 {
        0
    } else {
        number(bits.drop_last()) + if bits.last() {
            pow2((bits.len() - 1) as nat)
        } else {
            0
        }
    }
}

/// The first `len` entries of `bits`, with `false` where `bits` has run
/// out.
pub open spec fn padded(bits: Seq<bool>, len: int) -> Seq<bool> {
    Seq::new(
        len as nat,
        |i: int|
            if i < bits.len() {
                bits[i]
            } else {
                false
            },
    )
}

/// One if `b`, else zero.
pub open spec fn digit(b: bool) -> nat {
    if b {
        1
    } else {
        0
    }
}

/// Adds three bits: returns the low bit of the sum and the carry.
pub fn rca1(a: bool, b: bool, c: bool) -> (r: (bool, bool))
    ensures
        digit(r.0) + 2 * digit(r.1) == digit(a) + digit(b) + digit(c),
{
    let ones: u8 = (if a {
        1u8
    } else {
        0u8
    }) + (if b {
        1u8
    } else {
        0u8
    }) + (if c {
        1u8
    } else {
        0u8
    });
    (ones == 1 || ones == 3, ones >= 2)
}

proof fn lemma_number_step(bits: Seq<bool>, i: int)
    requires
        0 <= i < bits.len(),
    ensures
        number(bits.take(i + 1)) == number(bits.take(i)) + digit(bits[i]) * pow2(i as nat),
        number(bits.take(0)) == 0,
        number(bits.take(bits.len() as int)) == number(bits),
{
    assert(bits.take(i + 1).drop_last() =~= bits.take(i));
    assert(bits.take(bits.len() as int) =~= bits);
    assert(bits.take(0).len() == 0);
    if bits[i] {
        assert(1 * pow2(i as nat) == pow2(i as nat));
    } else {
        assert(0 * pow2(i as nat) == 0);
    }
}

proof fn lemma_carry_step(
    sum: nat,
    left: nat,
    right: nat,
    p: nat,
    a: bool,
    b: bool,
    c: bool,
    y: bool,
    z: bool,
)
    requires
        sum + digit(c) * p == left + right,
        digit(y) + 2 * digit(z) == digit(a) + digit(b) + digit(c),
    ensures
        (sum + digit(y) * p) + digit(z) * (2 * p) == (left + digit(a) * p) + (right + digit(b) * p),
{
    assert(digit(z) * (2 * p) == 2 * digit(z) * p) by (nonlinear_arith);
    assert((digit(y) + 2 * digit(z)) * p == digit(y) * p + 2 * digit(z) * p) by (nonlinear_arith);
    assert((digit(a) + digit(b) + digit(c)) * p == digit(a) * p + digit(b) * p + digit(c) * p)
        by (nonlinear_arith);
}

impl<O: BitOrder, T: BitMemory> BitSlice<O, T> {
    /// Adds `addend` to the view, both read as numbers with their first bit
    /// as the least significant, and returns the carry out of the last bit.
    ///
    /// Where `addend` is shorter than the view it is taken to go on with
    /// zeros; where it is longer, what is past the length of the view is
    /// left out.  No bit of `mem` outside the view changes.
    pub fn add_assign_reverse(&self, mem: &mut [T], addend: &[bool]) -> (carry: bool)
        requires
            self.spec_within(old(mem)@),
        ensures
            number(self.spec_bits(final(mem)@)) + digit(carry) * pow2(self.spec_len() as nat)
                == number(self.spec_bits(old(mem)@)) + number(padded(addend@, self.spec_len())),
            self.spec_rest_kept(old(mem)@, final(mem)@),
    {
        let len: usize = self.len();
        let mut carry: bool = false;
        let mut index: usize = 0;
        let ghost before = self.spec_bits(mem@);
        let ghost other = padded(addend@, self.spec_len());
        proof {
            assert(before.len() == len);
            if len > 0 {
                lemma_number_step(before, 0);
                lemma_number_step(other, 0);
                lemma_number_step(self.spec_bits(mem@), 0);
            }
            assert(before.take(0) =~= Seq::<bool>::empty());
            assert(other.take(0) =~= Seq::<bool>::empty());
            assert(digit(false) * pow2(0) == 0);
        }
        while index < len
            invariant
                index <= len == self.spec_len(),
                before.len() == len,
                other == padded(addend@, self.spec_len()),
                self.spec_within(mem@),
                mem@.len() == old(mem)@.len(),
                before == self.spec_bits(old(mem)@),
                forall|k: int| index <= k < len ==> self.spec_bits(mem@)[k] == before[k],
                number(self.spec_bits(mem@).take(index as int)) + digit(carry) * pow2(index as nat)
                    == number(before.take(index as int)) + number(other.take(index as int)),
                self.spec_rest_kept(old(mem)@, mem@),
            decreases len - index,
        {
            let ghost prev = self.spec_bits(mem@);
            let a: bool = self.get_unchecked(mem, index);
            let b: bool = if index < addend.len() {
                addend[index]
            } else {
                false
            };
            let (y, z) = rca1(a, b, carry);
            self.set_unchecked(mem, index, y);
            proof {
                let now = self.spec_bits(mem@);
                assert(now =~= prev.update(index as int, y));
                assert(now.take(index as int) =~= prev.take(index as int));
                lemma_number_step(now, index as int);
                lemma_number_step(before, index as int);
                lemma_number_step(other, index as int);
                lemma_pow2_unfold((index + 1) as nat);
                assert(prev[index as int] == before[index as int]);
                lemma_carry_step(
                    number(prev.take(index as int)),
                    number(before.take(index as int)),
                    number(other.take(index as int)),
                    pow2(index as nat),
                    a,
                    b,
                    carry,
                    y,
                    z,
                );
            }
            carry = z;
            index = index + 1;
        }
        proof {
            if len > 0 {
                lemma_number_step(self.spec_bits(mem@), 0);
                lemma_number_step(before, 0);
                lemma_number_step(other, 0);
            } else {
                assert(self.spec_bits(mem@) =~= before);
                assert(other =~= Seq::<bool>::empty());
            }
        }
        carry
    }
}

} // verus!
