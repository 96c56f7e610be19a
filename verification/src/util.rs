//! Word-level arithmetic with an explicit carry or borrow.

use vstd::prelude::*;

verus! {

/// Addition, subtraction and multiplication of words, with a carry or a
/// borrow in and out.
///
/// A word stands for the natural number `as_nat()`, which is below
/// `radix()`. Each operation is exact over these numbers: what does not fit
/// the result word is in the carry or the borrow that comes out.
pub trait CarryOps: Sized {
    /// The word that stands for 0.
    const ZERO: Self;

    /// The number that the word stands for.
    spec fn as_nat(self) -> nat;

    /// The number of values that a word can take.
    spec fn radix() -> nat;

    /// `ZERO` stands for 0.
    proof fn lemma_zero()
        ensures
            Self::ZERO.as_nat() == 0,
    ;

    /// `self + rhs + carry`: the sum word, and the carry out, which is set
    /// exactly when the sum does not fit one word.
    fn _carrying_add(self, rhs: Self, carry: bool) -> (r: (Self, bool))
        ensures
            r.0.as_nat() < Self::radix(),
            r.0.as_nat() + (if r.1 {
                Self::radix()
            } else {
                0
            }) == self.as_nat() + rhs.as_nat() + (if carry {
                1nat
            } else {
                0
            }),
    ;

    /// `self - rhs - borrow`: the difference word, and the borrow out, which
    /// is set exactly when the difference is negative.
    fn _borrowing_sub(self, rhs: Self, borrow: bool) -> (r: (Self, bool))
        ensures
            r.0.as_nat() < Self::radix(),
            r.0.as_nat() - (if r.1 {
                Self::radix()
            } else {
                0
            }) == self.as_nat() - rhs.as_nat() - (if borrow {
                1nat
            } else {
                0
            }),
    ;

    /// `self * rhs + carry + add` as a double-width number: its low word and
    /// its high word.
    fn _carrying_mul_add(self, rhs: Self, carry: Self, add: Self) -> (r: (Self, Self))
        ensures
            r.0.as_nat() < Self::radix(),
            r.1.as_nat() < Self::radix(),
            r.0.as_nat() + r.1.as_nat() * Self::radix() == self.as_nat() * rhs.as_nat()
                + carry.as_nat() + add.as_nat(),
    ;

    /// `self * rhs + carry` as a double-width number: its low word and its
    /// high word.
    fn _carrying_mul(self, rhs: Self, carry: Self) -> (r: (Self, Self))
        ensures
            r.0.as_nat() < Self::radix(),
            r.1.as_nat() < Self::radix(),
            r.0.as_nat() + r.1.as_nat() * Self::radix() == self.as_nat() * rhs.as_nat()
                + carry.as_nat(),
    {
        proof {
            Self::lemma_zero();
        }
        self._carrying_mul_add(rhs, carry, Self::ZERO)
    }
}

impl CarryOps for u64 {
    const ZERO: Self = 0;

    open spec fn as_nat(self) -> nat {
        self as nat
    }

    open spec fn radix() -> nat {
        0x1_0000_0000_0000_0000
    }

    proof fn lemma_zero() {
        assert(<u64 as CarryOps>::ZERO == 0u64);
    }

    fn _carrying_add(self, rhs: Self, carry: bool) -> (r: (Self, bool)) {
        let a = self.wrapping_add(rhs);
        let b = a < self;
        let c = a.wrapping_add(if carry { 1 } else { 0 });
        let d = c < a;
        (c, b != d)
    }

    fn _borrowing_sub(self, rhs: Self, borrow: bool) -> (r: (Self, bool)) {
        let a = self.wrapping_sub(rhs);
        let b = self < rhs;
        let c = a.wrapping_sub(if borrow { 1 } else { 0 });
        let d = borrow && a == 0;
        (c, b != d)
    }

    fn _carrying_mul_add(self, rhs: Self, carry: Self, add: Self) -> (r: (Self, Self)) {
        assert(self as u128 * rhs as u128 <= 0xffff_ffff_ffff_ffff * 0xffff_ffff_ffff_ffff)
            by (nonlinear_arith)
            requires
                self <= 0xffff_ffff_ffff_ffffu64,
                rhs <= 0xffff_ffff_ffff_ffffu64,
        ;
        // The double-width intermediate cannot overflow.
        let wide: u128 = self as u128 * rhs as u128 + carry as u128 + add as u128;
        let low = #[verifier::truncate] (wide as u64);
        assert(wide == (wide >> 64) * 0x1_0000_0000_0000_0000 + (wide as u64) as u128 && (wide
            >> 64) <= 0xffff_ffff_ffff_ffffu128) by (bit_vector);
        let high = (wide >> 64) as u64;
        (low, high)
    }
}

} // verus!
