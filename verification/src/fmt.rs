//! Decimal rendering: from binary limbs to decimal digits by shifting bits
//! into an array of decimal digit slots.

use crate::laws::{lemma_decimal_no_leading_zero, lemma_decimal_round_trip};
use crate::limbs::{
    base, base_pow, bit, lemma_base_pow_monotonic, lemma_value_bound, lemma_value_single,
    lemma_value_skip, limbs_value,
};
use crate::BigUint;
use vstd::arithmetic::power2::{
    lemma2_to64, lemma2_to64_rest, lemma_pow2_strictly_increases, lemma_pow2_unfold, pow2,
};
use vstd::prelude::*;
use vstd::string::StringExecFns;

verus! {

/// The character of one decimal digit.
pub open spec fn digit_char(d: nat) -> char {
    if d == 0 {
        '0'
    } else if d == 1 {
        '1'
    } else if d == 2 {
        '2'
    } else if d == 3 {
        '3'
    } else if d == 4 {
        '4'
    } else if d == 5 {
        '5'
    } else if d == 6 {
        '6'
    } else if d == 7 {
        '7'
    } else if d == 8 {
        '8'
    } else {
        '9'
    }
}

/// The decimal numeral of `n`: its digits from the most significant down,
/// with no leading zero, and `"0"` for zero.
pub open spec fn decimal_digits(n: nat) -> Seq<char>
    decreases n,
{
    if n < 10 {
        seq![digit_char(n)]
    } else {
        decimal_digits(n / 10).push(digit_char(n % 10))
    }
}

/// The digit that a decimal character stands for.
pub open spec fn char_digit(c: char) -> nat {
    if c == '1' {
        1
    } else if c == '2' {
        2
    } else if c == '3' {
        3
    } else if c == '4' {
        4
    } else if c == '5' {
        5
    } else if c == '6' {
        6
    } else if c == '7' {
        7
    } else if c == '8' {
        8
    } else if c == '9' {
        9
    } else {
        0
    }
}

/// The number that a decimal numeral stands for, most significant digit
/// first.
pub open spec fn decimal_value(s: Seq<char>) -> nat
    decreases s.len(),
{
    if s.len() == 0 {
        0
    } else {
        10 * decimal_value(s.drop_last()) + char_digit(s.last())
    }
}

/// The limbs in decimal, from the most significant down, with `'_'`
/// between two of them.
pub open spec fn limbs_text(s: Seq<u64>) -> Seq<char>
    decreases s.len(),
{
    if s.len() == 0 {
        Seq::empty()
    } else if s.len() == 1 {
        decimal_digits(s[0] as nat)
    } else {
        decimal_digits(s.last() as nat) + seq!['_'] + limbs_text(s.drop_last())
    }
}

/// 10 raised to the power `n`.
pub open spec fn pow10(n: nat) -> nat
    decreases n,
{
    if n == 0 {
        1
    } else {
        10 * pow10((n - 1) as nat)
    }
}

/// The number that little-endian decimal digit slots stand for: the sum of
/// `s[i] * pow10(i)` over all its indices.
pub open spec fn digits_value(s: Seq<u8>) -> nat
    decreases s.len(),
{
    if s.len() == 0 {
        0
    } else {
        digits_value(s.drop_last()) + s.last() as nat * pow10((s.len() - 1) as nat)
    }
}

/// Every slot holds one decimal digit.
pub open spec fn all_decimal(s: Seq<u8>) -> bool {
    forall|i: int| 0 <= i < s.len() ==> s[i] <= 9
}

/// A slot before the shift: a digit from 5 on is raised by 3.
pub open spec fn corrected(d: u8) -> u8 {
    if d >= 5 {
        (d + 3) as u8
    } else {
        d
    }
}

/// The `k` most significant bits of `x`, as a number.
pub open spec fn top_bits(x: u64, k: u64) -> u64 {
    if k == 0 {
        0
    } else {
        x >> ((64 - k) as u64)
    }
}

/// Every power of 10 is positive.
pub proof fn lemma_pow10_positive(n: nat)
    ensures
        pow10(n) > 0,
    decreases n,
{
    if n > 0 {
        lemma_pow10_positive((n - 1) as nat);
    }
}

/// The powers of 10 grow with the exponent.
pub proof fn lemma_pow10_monotonic(a: nat, b: nat)
    requires
        a <= b,
    ensures
        pow10(a) <= pow10(b),
    decreases b,
{
    if a < b {
        lemma_pow10_monotonic(a, (b - 1) as nat);
    }
}

/// The power of a sum is the product of the powers.
pub proof fn lemma_pow10_add(a: nat, b: nat)
    ensures
        pow10(a + b) == pow10(a) * pow10(b),
    decreases b,
{
    if b == 0 {
        assert(pow10(a) * 1 == pow10(a));
    } else {
        lemma_pow10_add(a, (b - 1) as nat);
        assert(a + b - 1 == a + (b - 1) as nat);
        assert(10 * (pow10(a) * pow10((b - 1) as nat)) == pow10(a) * (10 * pow10((b - 1) as nat)))
            by (nonlinear_arith);
    }
}

/// `n` limbs hold less than 20 `n` decimal digits do.
pub proof fn lemma_base_pow_below_pow10(n: nat)
    ensures
        base_pow(n) <= pow10(20 * n),
    decreases n,
{
    if n > 0 {
        let m = (n - 1) as nat;
        lemma_base_pow_below_pow10(m);
        lemma_pow10_add(20 * m, 20);
        assert(pow10(20) == 100_000_000_000_000_000_000) by {
            reveal_with_fuel(pow10, 21);
        }
        assert(base() * base_pow(m) <= pow10(20 * m) * pow10(20)) by (nonlinear_arith)
            requires
                base_pow(m) <= pow10(20 * m),
                base() <= pow10(20),
        ;
        assert(20 * m + 20 == 20 * n);
    }
}

/// Zero slots stand for zero.
pub proof fn lemma_digits_zeros(s: Seq<u8>)
    requires
        forall|i: int| 0 <= i < s.len() ==> s[i] == 0,
    ensures
        digits_value(s) == 0,
    decreases s.len(),
{
    if s.len() > 0 {
        lemma_digits_zeros(s.drop_last());
        assert(0 * pow10((s.len() - 1) as nat) == 0);
    }
}

/// A slot pushed above the others adds its digit with the weight of its index.
pub proof fn lemma_digits_push(s: Seq<u8>, d: u8)
    ensures
        digits_value(s.push(d)) == digits_value(s) + d as nat * pow10(s.len()),
{
    assert(s.push(d).drop_last() =~= s);
}

/// One more slot adds its digit with its weight.
pub proof fn lemma_digits_take(s: Seq<u8>, k: int)
    requires
        0 <= k < s.len(),
    ensures
        digits_value(s.take(k + 1)) == digits_value(s.take(k)) + s[k] as nat * pow10(k as nat),
{
    assert(s.take(k + 1).drop_last() =~= s.take(k));
}

/// Appending `b` above `a` adds the value of `b`, weighted by the length of `a`.
pub proof fn lemma_digits_concat(a: Seq<u8>, b: Seq<u8>)
    ensures
        digits_value(a + b) == digits_value(a) + pow10(a.len()) * digits_value(b),
    decreases b.len(),
{
    if b.len() == 0 {
        assert(a + b =~= a);
        assert(pow10(a.len()) * 0 == 0);
    } else {
        let high = (b.len() - 1) as nat;
        assert((a + b).drop_last() =~= a + b.drop_last());
        lemma_digits_concat(a, b.drop_last());
        lemma_pow10_add(a.len(), high);
        assert(pow10(a.len()) * (digits_value(b.drop_last()) + b.last() as nat * pow10(high))
            == pow10(a.len()) * digits_value(b.drop_last()) + b.last() as nat * (pow10(a.len())
            * pow10(high))) by (nonlinear_arith);
    }
}

/// The value from slot `i` upwards is the digit at `i` plus 10 times the
/// value from slot `i + 1` upwards.
pub proof fn lemma_digits_skip(s: Seq<u8>, i: int)
    requires
        0 <= i < s.len(),
    ensures
        digits_value(s.skip(i)) == s[i] as nat + 10 * digits_value(s.skip(i + 1)),
{
    assert(s.skip(i) =~= seq![s[i]] + s.skip(i + 1));
    lemma_digits_concat(seq![s[i]], s.skip(i + 1));
    assert(seq![s[i]] =~= Seq::<u8>::empty().push(s[i]));
    lemma_digits_push(Seq::<u8>::empty(), s[i]);
    assert(pow10(1) == 10) by {
        assert(pow10(0) == 1);
    }
    assert(pow10(0) == 1);
    assert(s[i] as nat * 1 == s[i] as nat);
}

/// One slot of the shift: the value of the slots below stays doubled.
proof fn lemma_double_step(
    l: nat,
    a: nat,
    p: nat,
    new: nat,
    x: nat,
    cin: nat,
    cout: nat,
    b: nat,
)
    requires
        l + cin * p == 2 * a + b,
        new + 10 * cout == 2 * x + cin,
    ensures
        (l + new * p) + cout * (10 * p) == 2 * (a + x * p) + b,
{
    assert((new + 10 * cout) * p == (2 * x + cin) * p);
    assert((new + 10 * cout) * p == new * p + cout * (10 * p)) by (nonlinear_arith);
    assert((2 * x + cin) * p == 2 * (x * p) + cin * p) by (nonlinear_arith);
}

/// The bits taken so far from the limbs stand for a number that the limbs
/// taken so far could hold.
proof fn lemma_prefix_bound(high: nat, h: nat, p: nat, t: nat)
    requires
        high < base_pow(h),
        t < p,
        p <= base(),
    ensures
        high * p + t < base_pow(h + 1),
{
    assert(high * p + t < base_pow(h) * base()) by (nonlinear_arith)
        requires
            high + 1 <= base_pow(h),
            t < p,
            p <= base(),
    ;
    assert(base_pow(h) * base() == base() * base_pow(h)) by (nonlinear_arith);
}

/// Doubles the number in the digit slots and adds the bit `b`: raises each
/// slot from 5 on by 3, then shifts all slots left by one bit, with `b`
/// into the lowest slot and what leaves a slot into the next.
fn shift_in_bit(bcd: &mut Vec<u8>, b: bool)
    requires
        all_decimal(old(bcd)@),
        2 * digits_value(old(bcd)@) + bit(b) < pow10(old(bcd)@.len()),
    ensures
        all_decimal(final(bcd)@),
        final(bcd)@.len() == old(bcd)@.len(),
        digits_value(final(bcd)@) == 2 * digits_value(old(bcd)@) + bit(b),
{
    let ghost before = bcd@;
    let mut k: usize = 0;
    while k < bcd.len()
        invariant
            k <= bcd@.len(),
            bcd@.len() == before.len(),
            all_decimal(before),
            forall|j: int| 0 <= j < k ==> bcd@[j] == corrected(before[j]),
            forall|j: int| k <= j < bcd@.len() ==> bcd@[j] == before[j],
        decreases bcd@.len() - k,
    {
        let d = bcd[k];
        assert(before[k as int] <= 9);
        if d >= 5 {
            bcd[k] = d + 3;
        }
        k += 1;
    }
    let mut carry = b;
    let mut k: usize = 0;
    proof {
        assert(bcd@.take(0) =~= Seq::<u8>::empty());
        assert(before.take(0) =~= Seq::<u8>::empty());
        assert(pow10(0) == 1);
    }
    while k < bcd.len()
        invariant
            k <= bcd@.len(),
            bcd@.len() == before.len(),
            all_decimal(before),
            forall|j: int| 0 <= j < k ==> bcd@[j] <= 9,
            forall|j: int| k <= j < bcd@.len() ==> bcd@[j] == corrected(before[j]),
            digits_value(bcd@.take(k as int)) + bit(carry) * pow10(k as nat) == 2 * digits_value(
                before.take(k as int),
            ) + bit(b),
        decreases bcd@.len() - k,
    {
        let ghost slots = bcd@;
        let d = bcd[k];
        let cin: u8 = if carry {
            1
        } else {
            0
        };
        let next = (d >> 3) != 0;
        let shifted = ((d << 1) | cin) & 0xf;
        proof {
            assert(d <= 4 ==> ((d << 1) | cin) & 0xf == 2 * d + cin && (d >> 3) == 0)
                by (bit_vector)
                requires
                    cin <= 1,
            ;
            assert(8 <= d <= 12 ==> ((d << 1) | cin) & 0xf == 2 * d + cin - 16 && (d >> 3) != 0)
                by (bit_vector)
                requires
                    cin <= 1,
            ;
        }
        bcd[k] = shifted;
        proof {
            assert(bcd@.take(k as int) =~= slots.take(k as int));
            lemma_digits_take(bcd@, k as int);
            lemma_digits_take(before, k as int);
            lemma_double_step(
                digits_value(slots.take(k as int)),
                digits_value(before.take(k as int)),
                pow10(k as nat),
                shifted as nat,
                before[k as int] as nat,
                bit(carry),
                bit(next),
                bit(b),
            );
            assert(pow10((k + 1) as nat) == 10 * pow10(k as nat));
        }
        carry = next;
        k += 1;
    }
    proof {
        assert(bcd@.take(k as int) =~= bcd@);
        assert(before.take(k as int) =~= before);
        lemma_pow10_positive(k as nat);
        if carry {
            assert(bit(carry) * pow10(k as nat) == pow10(k as nat));
        } else {
            assert(bit(carry) * pow10(k as nat) == 0);
        }
    }
}

/// The decimal digit slots of the number in the limbs `v`, least
/// significant first: every bit of `v`, from the most significant limb down
/// and in each limb from its most significant bit down, is shifted into
/// slots that begin as zero.
fn double_dabble(v: &Vec<u64>) -> (bcd: Vec<u8>)
    requires
        v@.len() * 64 + 2 <= usize::MAX,
    ensures
        all_decimal(bcd@),
        digits_value(bcd@) == limbs_value(v@),
{
    let bits = v.len() * 64;
    let mut bcd: Vec<u8> = vec![0; bits / 4 + (bits + 2) / 3];
    let ghost slots = bcd@.len();
    let mut i: usize = v.len();
    proof {
        lemma_digits_zeros(bcd@);
        assert(v@.skip(i as int) =~= Seq::<u64>::empty());
        lemma_base_pow_below_pow10(v@.len());
        lemma_pow10_monotonic(20 * v@.len(), slots);
    }
    while i > 0
        invariant
            i <= v@.len(),
            bcd@.len() == slots,
            all_decimal(bcd@),
            base_pow(v@.len()) <= pow10(slots),
            digits_value(bcd@) == limbs_value(v@.skip(i as int)),
        decreases i,
    {
        i -= 1;
        let limb = v[i];
        let ghost high = limbs_value(v@.skip(i + 1));
        let ghost h = (v@.len() - i - 1) as nat;
        let mut taken: u64 = 0;
        proof {
            lemma_value_bound(v@.skip(i + 1));
            lemma_base_pow_monotonic(h + 1, v@.len());
            lemma2_to64_rest();
            assert(pow2(0) == 1) by {
                lemma2_to64();
            }
            assert(high * 1 == high);
        }
        while taken < 64
            invariant
                taken <= 64,
                bcd@.len() == slots,
                all_decimal(bcd@),
                high < base_pow(h),
                base_pow(h + 1) <= pow10(slots),
                pow2(64) == base(),
                top_bits(limb, taken) < pow2(taken as nat),
                digits_value(bcd@) == high * pow2(taken as nat) + top_bits(limb, taken),
            decreases 64 - taken,
        {
            let b = (limb >> (63 - taken)) & 1 != 0;
            proof {
                let p = pow2(taken as nat);
                let t = top_bits(limb, taken) as nat;
                assert(taken == 0 ==> limb >> 63 == (limb >> 63) & 1) by (bit_vector);
                assert(0 < taken < 64 ==> limb >> ((63 - taken) as u64) == 2 * (limb >> ((64
                    - taken) as u64)) + ((limb >> ((63 - taken) as u64)) & 1)) by (bit_vector);
                assert(((limb >> ((63 - taken) as u64)) & 1) <= 1) by (bit_vector);
                assert(top_bits(limb, (taken + 1) as u64) == 2 * t + bit(b));
                lemma_pow2_unfold((taken + 1) as nat);
                if taken + 1 < 64 {
                    lemma_pow2_strictly_increases((taken + 1) as nat, 64);
                }
                assert(high * (2 * p) == 2 * (high * p)) by (nonlinear_arith);
                lemma_prefix_bound(high, h, 2 * p, 2 * t + bit(b));
            }
            shift_in_bit(&mut bcd, b);
            taken += 1;
        }
        proof {
            assert(top_bits(limb, 64) == limb) by {
                assert(limb >> 0u64 == limb) by (bit_vector);
            }
            lemma_value_skip(v@, i as int);
            assert(high * base() == base() * high) by (nonlinear_arith);
        }
    }
    proof {
        assert(v@.skip(0) =~= v@);
    }
    bcd
}

/// The decimal digits of the word `v`, least significant first.
fn word_digits(v: u64) -> (digits: Vec<u8>)
    ensures
        all_decimal(digits@),
        digits_value(digits@) == v,
{
    let mut digits: Vec<u8> = Vec::new();
    let mut rest = v;
    proof {
        assert(pow10(0) == 1);
        assert(rest * 1 == rest);
    }
    while rest != 0
        invariant
            all_decimal(digits@),
            digits_value(digits@) + rest * pow10(digits@.len()) == v,
        decreases rest,
    {
        let d = (rest % 10) as u8;
        proof {
            let p = pow10(digits@.len());
            lemma_digits_push(digits@, d);
            assert(rest * p == (rest / 10) * (10 * p) + d * p) by (nonlinear_arith)
                requires
                    rest == 10 * (rest / 10) + d,
            ;
            assert(pow10(digits@.len() + 1) == 10 * p);
        }
        digits.push(d);
        rest = rest / 10;
    }
    proof {
        assert(0 * pow10(digits@.len()) == 0);
    }
    digits
}

/// The one-character text of a decimal digit.
fn digit_str(d: u8) -> (s: &'static str)
    requires
        d <= 9,
    ensures
        s@ == seq![digit_char(d as nat)],
{
    proof {
        reveal_strlit("0");
        reveal_strlit("1");
        reveal_strlit("2");
        reveal_strlit("3");
        reveal_strlit("4");
        reveal_strlit("5");
        reveal_strlit("6");
        reveal_strlit("7");
        reveal_strlit("8");
        reveal_strlit("9");
    }
    let s = if d == 0 {
        "0"
    } else if d == 1 {
        "1"
    } else if d == 2 {
        "2"
    } else if d == 3 {
        "3"
    } else if d == 4 {
        "4"
    } else if d == 5 {
        "5"
    } else if d == 6 {
        "6"
    } else if d == 7 {
        "7"
    } else if d == 8 {
        "8"
    } else {
        "9"
    };
    assert(s@ =~= seq![digit_char(d as nat)]);
    s
}

/// The decimal numeral of the number in the digit slots: the slots from the
/// most significant down, without the leading zero slots, and `"0"` where
/// all slots are zero.
fn render_digits(digits: &Vec<u8>) -> (r: String)
    requires
        all_decimal(digits@),
    ensures
        r@ == decimal_digits(digits_value(digits@)),
{
    let mut top = digits.len();
    while top > 0 && digits[top - 1] == 0
        invariant
            top <= digits@.len(),
            forall|j: int| top <= j < digits@.len() ==> digits@[j] == 0,
        decreases top,
    {
        top -= 1;
    }
    proof {
        lemma_digits_zeros(digits@.skip(top as int));
    }
    let mut out = String::new();
    if top == 0 {
        proof {
            assert(digits@.skip(0) =~= digits@);
        }
        out.append(digit_str(0));
        return out;
    }
    let mut j = top;
    while j > 0
        invariant
            j <= top <= digits@.len(),
            top > 0,
            digits@[top - 1] != 0,
            all_decimal(digits@),
            j == top ==> out@ == Seq::<char>::empty() && digits_value(digits@.skip(j as int)) == 0,
            j < top ==> out@ == decimal_digits(digits_value(digits@.skip(j as int)))
                && digits_value(digits@.skip(j as int)) >= 1,
        decreases j,
    {
        j -= 1;
        proof {
            lemma_digits_skip(digits@, j as int);
        }
        out.append(digit_str(digits[j]));
    }
    proof {
        assert(digits@.skip(0) =~= digits@);
    }
    out
}

/// The decimal numeral of the word `v`, by native division.
fn word_string(v: u64) -> (r: String)
    ensures
        r@ == decimal_digits(v as nat),
{
    let digits = word_digits(v);
    render_digits(&digits)
}

impl BigUint {
    /// The text that shows the form of the value.
    pub open spec fn debug_text(&self) -> Seq<char> {
        match *self {
            BigUint::Small(v) => "Small("@ + decimal_digits(v as nat) + ")"@,
            BigUint::Big(v) => "Big("@ + limbs_text(v@) + ")"@,
        }
    }

    /// A text for debugging, which shows the form of the value: the word
    /// of a `Small`, and the limbs of a `Big` from the most significant
    /// down, with `'_'` between them.
    pub fn debug_string(&self) -> (r: String)
        ensures
            r@ == self.debug_text(),
    {
        match self {
            Self::Small(v) => {
                let mut out = String::from_str("Small(");
                let word = word_string(*v);
                out.append(word.as_str());
                out.append(")");
                out
            },
            Self::Big(v) => {
                let mut out = String::from_str("Big(");
                let mut i = v.len();
                proof {
                    reveal_strlit("_");
                    assert(v@.take(i as int) =~= v@);
                }
                while i > 0
                    invariant
                        i <= v@.len(),
                        "_"@ == seq!['_'],
                        out@ + limbs_text(v@.take(i as int)) == "Big("@ + limbs_text(v@),
                    decreases i,
                {
                    i -= 1;
                    let ghost before = out@;
                    let ghost rest = v@.take(i + 1);
                    let word = word_string(v[i]);
                    out.append(word.as_str());
                    if i != 0 {
                        out.append("_");
                    }
                    proof {
                        assert(rest.drop_last() =~= v@.take(i as int));
                        assert(rest.last() == v@[i as int]);
                        if i != 0 {
                            assert(out@ + limbs_text(v@.take(i as int)) =~= before + limbs_text(
                                rest,
                            ));
                        } else {
                            assert(limbs_text(v@.take(i as int)) =~= Seq::<char>::empty());
                            assert(out@ + limbs_text(v@.take(i as int)) =~= before + limbs_text(
                                rest,
                            ));
                        }
                    }
                }
                proof {
                    assert(limbs_text(v@.take(0)) =~= Seq::<char>::empty());
                    assert(out@ =~= out@ + limbs_text(v@.take(0)));
                }
                out.append(")");
                out
            },
        }
    }

    /// The decimal numeral of the value: no leading zero, and `"0"` for zero.
    /// Read back as a decimal numeral, it gives the value again.
    ///
    /// A `Small` is rendered from its word by native division. The limbs of
    /// a `Big` are turned into decimal digits bit by bit.
    pub fn to_string(&self) -> (r: String)
        requires
            self.limbs().len() * 64 + 2 <= usize::MAX,
        ensures
            r@ == decimal_digits(self@),
            decimal_value(r@) == self@,
            r@.len() >= 1,
            r@[0] == '0' ==> self@ == 0 && r@.len() == 1,
    {
        proof {
            lemma_decimal_round_trip(self@);
            lemma_decimal_no_leading_zero(self@);
        }
        match self {
            Self::Small(v) => {
                proof {
                    lemma_value_single(*v);
                }
                word_string(*v)
            },
            Self::Big(v) => {
                let bcd = double_dabble(v);
                render_digits(&bcd)
            },
        }
    }
}

} // verus!
