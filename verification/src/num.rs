//! The additive and the multiplicative identity.

use crate::limbs::{lemma_value_single, lemma_value_zero_iff};
use crate::BigUint;
use vstd::prelude::*;

verus! {

impl BigUint {
    /// The additive identity.
    pub fn zero() -> (r: Self)
        ensures
            r == BigUint::Small(0),
    {
        Self::Small(0)
    }

    /// Tells whether `self` stands for 0, in whatever form.
    pub fn is_zero(&self) -> (r: bool)
        ensures
            r <==> self@ == 0,
    {
        proof {
            lemma_value_zero_iff(self.limbs());
        }
        match self {
            Self::Small(v) => *v == 0,
            Self::Big(v) => Self::zero_from(v, 0),
        }
    }

    /// Sets `self` to the additive identity.
    pub fn set_zero(&mut self)
        ensures
            *final(self) == BigUint::Small(0),
    {
        *self = Self::Small(0);
    }

    /// The multiplicative identity.
    pub fn one() -> (r: Self)
        ensures
            r == BigUint::Small(1),
    {
        Self::Small(1)
    }

    /// Tells whether `self` stands for 1, in whatever form.
    pub fn is_one(&self) -> (r: bool)
        ensures
            r <==> self@ == 1,
    {
        match self {
            Self::Small(v) => {
                proof {
                    lemma_value_single(*v);
                }
                *v == 1
            },
            Self::Big(_) => {
                match self.to_word() {
                    Some(low) => low == 1,
                    None => false,
                }
            },
        }
    }
}

} // verus!
