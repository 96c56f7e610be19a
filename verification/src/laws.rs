//! Laws of the arithmetic, the order and the decimal rendering, over the
//! numbers that values stand for.

use crate::fmt::{decimal_digits, decimal_value};
use crate::limbs::{lemma_value_bound, lemma_value_trailing_zeros, lemma_value_unique, zeros};
use crate::BigUint;
use core::cmp::Ordering;
use vstd::arithmetic::div_mod::lemma_fundamental_div_mod;
use vstd::prelude::*;
use vstd::std_specs::cmp::{PartialEqSpec, PartialOrdSpec};

verus! {

/// Reading a rendered numeral back gives the number that was rendered.
pub proof fn lemma_decimal_round_trip(n: nat)
    ensures
        decimal_value(decimal_digits(n)) == n,
    decreases n,
{
    if n < 10 {
        assert(decimal_digits(n).drop_last() =~= Seq::<char>::empty());
        assert(decimal_value(Seq::<char>::empty()) == 0);
    } else {
        lemma_decimal_round_trip(n / 10);
        assert(decimal_digits(n).drop_last() =~= decimal_digits(n / 10));
    }
}

/// A rendered numeral is never empty and begins with `'0'` only where it is
/// `"0"`, the numeral of zero.
pub proof fn lemma_decimal_no_leading_zero(n: nat)
    ensures
        decimal_digits(n).len() >= 1,
        n == 0 ==> decimal_digits(n) == seq!['0'],
        n > 0 ==> decimal_digits(n)[0] != '0',
    decreases n,
{
    if n >= 10 {
        lemma_decimal_no_leading_zero(n / 10);
    }
}

/// Adding back what was subtracted gives the first operand again: the
/// number that `sub_assign` leaves, with the number that `add_assign` adds
/// to it, is the number of `x`.
pub proof fn lemma_sub_add_inverse(x: BigUint, y: BigUint)
    requires
        x@ >= y@,
    ensures
        (x@ - y@) + y@ == x@,
{
}

/// The quotient times the divisor, plus the remainder, is the dividend, and
/// the remainder is below the divisor, for the quotient that
/// `div_assign_rem` leaves and the remainder that it returns.
pub proof fn lemma_division_identity(x: BigUint, y: BigUint)
    requires
        y@ != 0,
    ensures
        (x@ / y@) * y@ + x@ % y@ == x@,
        x@ % y@ < y@,
{
    lemma_fundamental_div_mod(x@ as int, y@ as int);
    assert((x@ / y@) * y@ == y@ * (x@ / y@)) by (nonlinear_arith);
}

/// A value compares equal to every value that has its limbs and any number
/// of zero limbs above them, whichever of the two forms each is in: to a
/// longer form of itself, to its trimmed form, and a `Small` to a `Big`.
pub proof fn lemma_trailing_zeros_equal(x: BigUint, y: BigUint, n: nat)
    requires
        y.limbs() == x.limbs() + zeros(n),
    ensures
        x@ == y@,
        x.eq_spec(&y),
        y.eq_spec(&x),
        x.partial_cmp_spec(&y) == Some(Ordering::Equal),
        y.partial_cmp_spec(&x) == Some(Ordering::Equal),
{
    lemma_value_trailing_zeros(x.limbs(), n);
}

/// A form is fixed by its number, by whether it is `Small`, and by the
/// number of its limbs.
pub proof fn lemma_form_unique(x: BigUint, y: BigUint)
    requires
        x@ == y@,
        x is Small <==> y is Small,
        x.limbs().len() == y.limbs().len(),
    ensures
        x.form() == y.form(),
{
    lemma_value_unique(x.limbs(), y.limbs());
    if x is Small {
        assert(x.limbs()[0] == y.limbs()[0]);
    }
}

/// Each number has one canonical form.
pub proof fn lemma_canonical_unique(x: BigUint, y: BigUint)
    requires
        x.is_canonical(),
        y.is_canonical(),
        x@ == y@,
    ensures
        x.form() == y.form(),
{
    let a = x.limbs();
    let b = y.limbs();
    lemma_value_bound(a);
    lemma_value_bound(b);
    x.lemma_canonical_len(b.len());
    y.lemma_canonical_len(a.len());
    lemma_value_unique(a, b);
    if x is Small && y is Big {
        x.lemma_canonical_len(1);
    }
    if y is Small && x is Big {
        y.lemma_canonical_len(1);
    }
}

/// Addition is commutative: `add_assign` gives the same number with the
/// operands exchanged.
pub proof fn lemma_add_commutative(x: BigUint, y: BigUint)
    ensures
        x@ + y@ == y@ + x@,
{
}

/// Addition is associative: `add_assign` gives the same number however
/// three operands are grouped.
pub proof fn lemma_add_associative(x: BigUint, y: BigUint, z: BigUint)
    ensures
        (x@ + y@) + z@ == x@ + (y@ + z@),
{
}

/// Multiplication is commutative: `mul_assign` gives the same number with
/// the operands exchanged.
pub proof fn lemma_mul_commutative(x: BigUint, y: BigUint)
    ensures
        x@ * y@ == y@ * x@,
{
    assert(x@ * y@ == y@ * x@) by (nonlinear_arith);
}

/// Multiplication is associative: `mul_assign` gives the same number
/// however three operands are grouped.
pub proof fn lemma_mul_associative(x: BigUint, y: BigUint, z: BigUint)
    ensures
        (x@ * y@) * z@ == x@ * (y@ * z@),
{
    assert((x@ * y@) * z@ == x@ * (y@ * z@)) by (nonlinear_arith);
}

/// Multiplication distributes over addition: the product with a sum is the
/// sum of the products.
pub proof fn lemma_mul_distributive(x: BigUint, y: BigUint, z: BigUint)
    ensures
        x@ * (y@ + z@) == x@ * y@ + x@ * z@,
{
    assert(x@ * (y@ + z@) == x@ * y@ + x@ * z@) by (nonlinear_arith);
}

} // verus!
