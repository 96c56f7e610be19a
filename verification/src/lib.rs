//! An unsigned integer of unbounded size, held in one machine word while it fits.

use crate::limbs::{
    base, base_pow, lemma_base_pow_monotonic, lemma_low_value_full, lemma_value_concat,
    lemma_value_single, lemma_value_trailing_zeros, lemma_value_zero_iff, lemma_value_zeros,
    limbs_value, low_limbs, zeros,
};
use vstd::prelude::*;

pub mod fmt;
pub mod laws;
pub mod limbs;
pub mod num;
pub mod ops;
pub mod order;
pub mod util;

verus! {

/// A big unsigned integer on the heap, or a `u64` on the stack if it fits.
///
/// The limbs of `Big` are little endian: index 0 is the least significant.
#[derive(Debug)]
pub enum BigUint {
    Small(u64),
    Big(Vec<u64>),
}

/// The form in which a [`BigUint`] holds its number, with the limbs of `Big`
/// as a mathematical sequence.
pub enum Form {
    Small(u64),
    Big(Seq<u64>),
}

impl View for BigUint {
    type V = nat;

    /// The number that the value stands for.
    open spec fn view(&self) -> nat {
        limbs_value(self.limbs())
    }
}

impl BigUint {
    /// The form of the value.
    pub open spec fn form(&self) -> Form {
        match *self {
            BigUint::Small(v) => Form::Small(v),
            BigUint::Big(v) => Form::Big(v@),
        }
    }

    /// The limbs of the value, least significant first; a `Small` has one.
    pub open spec fn limbs(&self) -> Seq<u64> {
        match *self {
            BigUint::Small(v) => seq![v],
            BigUint::Big(v) => v@,
        }
    }

    /// The limbs of the value, extended by zero limbs where they are fewer
    /// than `len`.
    pub open spec fn inflated(&self, len: nat) -> Seq<u64> {
        low_limbs(
            self.limbs(),
            if len > self.limbs().len() {
                len
            } else {
                self.limbs().len()
            },
        )
    }

    /// Canonical form: `Small` where the number fits one word, and else
    /// `Big` with a nonzero most significant limb.
    pub open spec fn is_canonical(&self) -> bool {
        match *self {
            BigUint::Small(_) => true,
            BigUint::Big(v) => v@.len() >= 2 && v@.last() != 0,
        }
    }

    /// A canonical value below `base_pow(n)` has at most `n` limbs.
    pub proof fn lemma_canonical_len(&self, n: nat)
        requires
            self.is_canonical(),
            self@ < base_pow(n),
            n >= 1,
        ensures
            self.limbs().len() <= n,
    {
        let s = self.limbs();
        if s.len() > n {
            let high = (s.len() - 1) as nat;
            lemma_base_pow_monotonic(n, high);
            assert(s.last() as nat * base_pow(high) >= base_pow(high)) by (nonlinear_arith)
                requires
                    s.last() as nat >= 1,
            ;
        }
    }

    /// Moves the value out and leaves `Small(0)`.
    pub(crate) fn take(&mut self) -> (r: Self)
        ensures
            r == *old(self),
            *final(self) == BigUint::Small(0),
    {
        let mut taken = BigUint::Small(0);
        core::mem::swap(self, &mut taken);
        taken
    }

    /// Tells whether all limbs from index `start` on are zero.
    pub(crate) fn zero_from(v: &Vec<u64>, start: usize) -> (r: bool)
        ensures
            r <==> forall|i: int| start <= i < v@.len() ==> v@[i] == 0,
    {
        let mut i = start;
        while i < v.len()
            invariant
                start <= i,
                forall|j: int| start <= j < i && j < v@.len() ==> v@[j] == 0,
            decreases v.len() - i,
        {
            if v[i] != 0 {
                return false;
            }
            i += 1;
        }
        true
    }

    /// Multiplies by `base_pow(n)`: inserts `n` zero limbs at the least
    /// significant end. With `n > 0` a `Small` becomes `Big` first.
    pub fn left_shift_places(&mut self, n: usize)
        requires
            old(self).limbs().len() + n <= usize::MAX,
        ensures
            n == 0 ==> *final(self) == *old(self),
            n > 0 ==> final(self).form() == Form::Big(zeros(n as nat) + old(self).limbs()),
            final(self)@ == old(self)@ * base_pow(n as nat),
    {
        proof {
            lemma_value_concat(zeros(n as nat), self.limbs());
            lemma_value_zeros(n as nat);
            assert(self@ * base_pow(0) == self@) by {
                assert(base_pow(0) == 1);
                assert(self@ * 1 == self@);
            }
            assert(base_pow(n as nat) * self@ == self@ * base_pow(n as nat)) by (nonlinear_arith);
        }
        if n == 0 {
            return ;
        }
        match self {
            Self::Small(v) => {
                let mut limbs: Vec<u64> = vec![0; n];
                limbs.push(*v);
                assert(limbs@ =~= zeros(n as nat) + seq![*v]);
                *self = Self::Big(limbs);
            },
            Self::Big(v) => {
                let len = v.len();
                v.resize(len + n, 0);
                let ghost before = v@;
                let mut i = len;
                while i > 0
                    invariant
                        i <= len,
                        len + n <= usize::MAX,
                        v@.len() == len + n,
                        before.len() == len + n,
                        forall|j: int| 0 <= j < i ==> v@[j] == before[j],
                        forall|j: int| i + n <= j < len + n ==> v@[j] == before[j - n],
                    decreases i,
                {
                    i -= 1;
                    let x = v[i];
                    v[i + n] = x;
                }
                let mut k: usize = 0;
                while k < n
                    invariant
                        k <= n,
                        v@.len() == len + n,
                        before.len() == len + n,
                        forall|j: int| 0 <= j < k ==> v@[j] == 0,
                        forall|j: int| n <= j < len + n ==> v@[j] == before[j - n],
                    decreases n - k,
                {
                    v[k] = 0;
                    k += 1;
                }
                assert(v@ =~= zeros(n as nat) + before.subrange(0, len as int));
            },
        }
    }

    /// Trims away the zero limbs at the most significant end, down to the
    /// canonical form of the same number.
    pub fn trim(&mut self)
        ensures
            final(self)@ == old(self)@,
            final(self).is_canonical(),
            *old(self) is Small ==> *final(self) == *old(self),
    {
        match self {
            Self::Small(_) => {},
            Self::Big(v) => {
                let mut len = v.len();
                while len > 0 && v[len - 1] == 0
                    invariant
                        len <= v@.len(),
                        forall|j: int| len <= j < v@.len() ==> v@[j] == 0,
                    decreases len,
                {
                    len -= 1;
                }
                proof {
                    assert(v@ =~= v@.take(len as int) + zeros((v@.len() - len) as nat));
                    lemma_value_trailing_zeros(v@.take(len as int), (v@.len() - len) as nat);
                }
                if len == 0 {
                    assert(v@.take(0) =~= Seq::<u64>::empty());
                    proof {
                        lemma_value_single(0);
                    }
                    *self = Self::Small(0);
                } else if len == 1 {
                    let low = v[0];
                    assert(v@.take(1) =~= seq![low]);
                    *self = Self::Small(low);
                } else {
                    v.truncate(len);
                    assert(v@.last() != 0);
                }
            },
        }
    }

    /// Inflates `self` into a heap allocated integer with at least `len` limbs.
    pub fn inflate(&mut self, len: usize)
        ensures
            final(self).form() == Form::Big(old(self).inflated(len as nat)),
            final(self)@ == old(self)@,
    {
        let vec = self.take().inflate_vec(len);
        *self = Self::Big(vec);
    }

    /// The limbs of `self`, extended by zero limbs to at least `len` limbs.
    pub fn inflate_vec(self, len: usize) -> (r: Vec<u64>)
        ensures
            r@ == self.inflated(len as nat),
            limbs_value(r@) == self@,
    {
        proof {
            lemma_low_value_full(self.limbs(), self.inflated(len as nat).len());
        }
        match self {
            Self::Small(v) => {
                let mut vec: Vec<u64> = vec![0; if len > 1 { len } else { 1 }];
                vec[0] = v;
                assert(vec@ =~= self.inflated(len as nat));
                vec
            },
            Self::Big(mut v) => {
                let ghost before = v@;
                if len > v.len() {
                    v.resize(len, 0);
                }
                assert(v@ =~= self.inflated(len as nat));
                v
            },
        }
    }

    /// Narrows to one word: `Some` exactly when the number fits.
    pub fn to_word(&self) -> (r: Option<u64>)
        ensures
            self@ < base() ==> r == Some(self@ as u64),
            self@ >= base() ==> r is None,
    {
        match self {
            Self::Small(v) => {
                proof {
                    lemma_value_single(*v);
                }
                Some(*v)
            },
            Self::Big(v) => {
                if v.len() == 0 {
                    Some(0)
                } else {
                    let fits = Self::zero_from(v, 1);
                    proof {
                        let high = v@.skip(1);
                        assert(v@ =~= seq![v@[0]] + high);
                        lemma_value_concat(seq![v@[0]], high);
                        lemma_value_single(v@[0]);
                        lemma_value_zero_iff(high);
                        assert(base_pow(1) == base()) by {
                            assert(base_pow(0) == 1);
                        }
                        if fits {
                            assert forall|i: int| 0 <= i < high.len() implies high[i] == 0 by {
                                assert(high[i] == v@[i + 1]);
                            }
                            assert(base() * 0 == 0);
                        } else {
                            if limbs_value(high) == 0 {
                                assert forall|i: int| 1 <= i < v@.len() implies v@[i] == 0 by {
                                    assert(high[i - 1] == v@[i]);
                                }
                            }
                            assert(base() * limbs_value(high) >= base()) by (nonlinear_arith)
                                requires
                                    limbs_value(high) >= 1,
                            ;
                        }
                    }
                    if fits {
                        Some(v[0])
                    } else {
                        None
                    }
                }
            },
        }
    }
}

impl Clone for BigUint {
    /// A copy in the same form, with the same limbs.
    fn clone(&self) -> (r: Self)
        ensures
            r.form() == self.form(),
    {
        match self {
            Self::Small(v) => Self::Small(*v),
            Self::Big(v) => {
                let limbs = v.clone();
                assert(limbs@ =~= v@);
                Self::Big(limbs)
            },
        }
    }
}

impl Default for BigUint {
    /// `Small(0)`.
    fn default() -> (r: Self)
        ensures
            r == BigUint::Small(0),
    {
        Self::Small(0)
    }
}

impl From<u64> for BigUint {
    /// The `Small` of the word.
    fn from(value: u64) -> (r: Self) {
        Self::Small(value)
    }
}

impl vstd::std_specs::convert::FromSpecImpl<u64> for BigUint {
    open spec fn obeys_from_spec() -> bool {
        true
    }

    open spec fn from_spec(value: u64) -> Self {
        BigUint::Small(value)
    }
}

impl TryFrom<BigUint> for u64 {
    type Error = ();

    /// Narrows to one word, and fails where the number does not fit one.
    fn try_from(value: BigUint) -> (r: Result<Self, Self::Error>) {
        match value.to_word() {
            Some(word) => Ok(word),
            None => Err(()),
        }
    }
}

impl vstd::std_specs::convert::TryFromSpecImpl<BigUint> for u64 {
    open spec fn obeys_try_from_spec() -> bool {
        true
    }

    open spec fn try_from_spec(value: BigUint) -> Result<Self, Self::Error> {
        if value@ < base() {
            Ok(value@ as u64)
        } else {
            Err(())
        }
    }
}

} // verus!
