//! Equality and order of values, by the numbers they stand for.

use crate::limbs::{
    lemma_low_value_full, lemma_low_value_order, lemma_value_eq_iff, lemma_value_single, limb_at,
    low_value,
};
use crate::BigUint;
use core::cmp::Ordering;
use vstd::prelude::*;
use vstd::std_specs::cmp::{PartialEqSpecImpl, PartialOrdSpecImpl};

verus! {

/// The number that a word stands for.
pub open spec fn word_value(w: u64) -> nat {
    w as nat
}

/// The order of two numbers.
pub open spec fn value_order(x: nat, y: nat) -> Ordering {
    if x < y {
        Ordering::Less
    } else if x == y {
        Ordering::Equal
    } else {
        Ordering::Greater
    }
}

impl PartialEq for BigUint {
    /// Tells whether `self` and `other` stand for the same number: whether
    /// they agree at every limb position, the shorter one taken as extended
    /// by zero limbs.
    fn eq(&self, other: &Self) -> (r: bool) {
        match (self, other) {
            (Self::Small(a), Self::Small(b)) => {
                proof {
                    lemma_value_single(*a);
                    lemma_value_single(*b);
                }
                *a == *b
            },
            (Self::Big(a), Self::Small(b)) | (Self::Small(b), Self::Big(a)) => {
                proof {
                    lemma_value_eq_iff(a@, seq![*b]);
                    if a@.len() == 0 {
                        assert(limb_at(a@, 0) == 0);
                    } else {
                        assert(limb_at(a@, 0) == a@[0]);
                    }
                    assert(limb_at(seq![*b], 0) == *b);
                }
                if a.len() == 0 {
                    *b == 0
                } else {
                    let high_zero = Self::zero_from(a, 1);
                    proof {
                        if !high_zero {
                            let i = choose|i: int| 1 <= i < a@.len() && a@[i] != 0;
                            assert(limb_at(a@, i) != limb_at(seq![*b], i));
                        }
                    }
                    a[0] == *b && high_zero
                }
            },
            (Self::Big(a), Self::Big(b)) => {
                let common = if a.len() < b.len() {
                    a.len()
                } else {
                    b.len()
                };
                let mut i: usize = 0;
                while i < common
                    invariant
                        i <= common,
                        self.limbs() == a@,
                        other.limbs() == b@,
                        common <= a@.len(),
                        common <= b@.len(),
                        forall|j: int| 0 <= j < i ==> a@[j] == b@[j],
                    decreases common - i,
                {
                    if a[i] != b[i] {
                        proof {
                            lemma_value_eq_iff(a@, b@);
                            assert(limb_at(a@, i as int) != limb_at(b@, i as int));
                        }
                        return false;
                    }
                    i += 1;
                }
                let high_zero = if a.len() > common {
                    Self::zero_from(a, common)
                } else {
                    Self::zero_from(b, common)
                };
                proof {
                    lemma_value_eq_iff(a@, b@);
                    if !high_zero {
                        let i = choose|i: int|
                            common <= i && (i < a@.len() && a@[i] != 0 || i < b@.len() && b@[i]
                                != 0);
                        assert(limb_at(a@, i) != limb_at(b@, i));
                    }
                }
                high_zero
            },
        }
    }
}

impl PartialEqSpecImpl for BigUint {
    open spec fn obeys_eq_spec() -> bool {
        true
    }

    /// Two values are equal when they stand for the same number, in
    /// whatever form.
    open spec fn eq_spec(&self, other: &Self) -> bool {
        self@ == other@
    }
}

impl Eq for BigUint {

}

impl PartialEq<u64> for BigUint {
    /// Tells whether `self` stands for the number of the word `other`.
    fn eq(&self, other: &u64) -> (r: bool) {
        let small = BigUint::Small(*other);
        proof {
            lemma_value_single(*other);
        }
        *self == small
    }
}

impl PartialEqSpecImpl<u64> for BigUint {
    open spec fn obeys_eq_spec() -> bool {
        true
    }

    open spec fn eq_spec(&self, other: &u64) -> bool {
        self@ == *other
    }
}

impl BigUint {
    /// The order of the numbers that `self` and `other` stand for.
    pub fn cmp(&self, other: &Self) -> (r: Ordering)
        ensures
            r == value_order(self@, other@),
    {
        match (self, other) {
            (BigUint::Small(a), BigUint::Small(b)) => {
                proof {
                    lemma_value_single(*a);
                    lemma_value_single(*b);
                }
                Self::word_order(*a, *b)
            },
            (BigUint::Small(a), BigUint::Big(_)) => {
                proof {
                    lemma_value_single(*a);
                }
                // Above limb 0 the other side holds a nonzero limb or none.
                match other.to_word() {
                    Some(low) => Self::word_order(*a, low),
                    None => Ordering::Less,
                }
            },
            (BigUint::Big(_), BigUint::Small(b)) => {
                proof {
                    lemma_value_single(*b);
                }
                match self.to_word() {
                    Some(low) => Self::word_order(low, *b),
                    None => Ordering::Greater,
                }
            },
            (BigUint::Big(a), BigUint::Big(b)) => {
                let max_len = if a.len() > b.len() {
                    a.len()
                } else {
                    b.len()
                };
                let mut ret = Ordering::Equal;
                let mut i: usize = 0;
                let ghost mut n: nat = 0;
                while i < max_len
                    invariant
                        n == i,
                        i <= max_len,
                        ret == value_order(low_value(a@, n), low_value(b@, n)),
                    decreases max_len - i,
                {
                    let x = if i < a.len() {
                        a[i]
                    } else {
                        0
                    };
                    let y = if i < b.len() {
                        b[i]
                    } else {
                        0
                    };
                    proof {
                        lemma_low_value_order(a@, b@, n);
                        n = n + 1;
                    }
                    if x < y {
                        ret = Ordering::Less;
                    } else if x > y {
                        ret = Ordering::Greater;
                    }
                    i += 1;
                }
                proof {
                    lemma_low_value_full(a@, n);
                    lemma_low_value_full(b@, n);
                }
                ret
            },
        }
    }

    /// The order of two words.
    fn word_order(a: u64, b: u64) -> (r: Ordering)
        ensures
            r == value_order(word_value(a), word_value(b)),
    {
        if a < b {
            Ordering::Less
        } else if a == b {
            Ordering::Equal
        } else {
            Ordering::Greater
        }
    }
}

impl PartialOrd for BigUint {
    /// The order of `self` and `other`, which is total.
    fn partial_cmp(&self, other: &Self) -> (r: Option<Ordering>) {
        Some(self.cmp(other))
    }
}

impl PartialOrdSpecImpl for BigUint {
    open spec fn obeys_partial_cmp_spec() -> bool {
        true
    }

    /// Values are ordered as the numbers they stand for; the order is total.
    open spec fn partial_cmp_spec(&self, other: &Self) -> Option<Ordering> {
        Some(value_order(self@, other@))
    }
}

impl PartialOrd<u64> for BigUint {
    /// The order of `self` and the number of the word `other`.
    fn partial_cmp(&self, other: &u64) -> (r: Option<Ordering>) {
        let small = BigUint::Small(*other);
        proof {
            lemma_value_single(*other);
        }
        Some(self.cmp(&small))
    }
}

impl PartialOrdSpecImpl<u64> for BigUint {
    open spec fn obeys_partial_cmp_spec() -> bool {
        true
    }

    open spec fn partial_cmp_spec(&self, other: &u64) -> Option<Ordering> {
        Some(value_order(self@, word_value(*other)))
    }
}

} // verus!
