//! The four arithmetic operations, each in place on the left operand.

use crate::limbs::{
    base, base_pow, bit, grown_len, lemma_base_pow_add, lemma_base_pow_monotonic,
    lemma_base_pow_positive, lemma_low_value_agree, lemma_low_value_bound, lemma_low_value_full,
    lemma_low_value_step, lemma_value_bound, lemma_value_push, lemma_value_single,
    lemma_value_skip, lemma_value_split, lemma_value_zero_iff, limbs_value, low_value,
};
use crate::util::CarryOps;
use crate::BigUint;
use core::cmp::Ordering;
use vstd::arithmetic::div_mod::{
    lemma_fundamental_div_mod, lemma_fundamental_div_mod_converse, lemma_multiply_divide_lt,
};
use vstd::prelude::*;

verus! {

/// One position of a carrying addition: the low limbs that were added so far
/// stay right when both operands and the sum get one more limb.
proof fn lemma_add_step(
    l: nat,
    a: nat,
    b: nat,
    p: nat,
    s: nat,
    x: nat,
    y: nat,
    cin: nat,
    cout: nat,
)
    requires
        l + cin * p == a + b,
        s + cout * base() == x + y + cin,
    ensures
        (l + s * p) + cout * (base() * p) == (a + x * p) + (b + y * p),
{
    assert((s + cout * base()) * p == (x + y + cin) * p);
    assert((s + cout * base()) * p == s * p + cout * (base() * p)) by (nonlinear_arith);
    assert((x + y + cin) * p == x * p + y * p + cin * p) by (nonlinear_arith);
}

/// Adds the word `b` to the limbs `a`: into limb 0, and then the carry
/// through the limbs above it, with a new limb 1 where it leaves the last.
fn add_big_small(a: &mut Vec<u64>, b: u64)
    requires
        old(a)@.len() >= 1,
    ensures
        limbs_value(final(a)@) == limbs_value(old(a)@) + b,
        final(a)@.len() == grown_len(limbs_value(old(a)@) + b as nat, old(a)@.len()),
{
    let ghost a0 = a@;
    proof {
        lemma_value_split(a0, 1);
        lemma_low_value_step(a0, 0);
        assert(base_pow(0) == 1);
    }
    let (v, c) = a[0]._carrying_add(b, false);
    a[0] = v;
    proof {
        lemma_value_split(a@, 1);
        lemma_low_value_step(a@, 0);
        assert(a@.skip(1) =~= a0.skip(1));
        assert(base_pow(1) == base());
    }
    if !c {
        proof {
            lemma_value_bound(a@);
        }
        return ;
    }
    let mut i: usize = 1;
    while i < a.len()
        invariant
            1 <= i <= a@.len(),
            a0 == old(a)@,
            a@.len() == a0.len(),
            forall|j: int| i <= j < a@.len() ==> a@[j] == a0[j],
            low_value(a@, i as nat) + base_pow(i as nat) == low_value(a0, i as nat) + b,
        decreases a@.len() - i,
    {
        let ghost before = a@;
        let (w, carry) = a[i]._carrying_add(1, false);
        a[i] = w;
        proof {
            let n = i as nat;
            lemma_low_value_agree(before, a@, n);
            lemma_low_value_step(a@, n);
            lemma_low_value_step(a0, n);
            lemma_add_step(
                low_value(before, n),
                low_value(a0, n),
                b as nat,
                base_pow(n),
                w as nat,
                a0[i as int] as nat,
                0,
                1,
                bit(carry),
            );
            assert(base_pow(n + 1) == base() * base_pow(n));
        }
        if !carry {
            proof {
                lemma_value_split(a@, (i + 1) as nat);
                lemma_value_split(a0, (i + 1) as nat);
                assert(a@.skip(i + 1) =~= a0.skip(i + 1));
                lemma_value_bound(a@);
            }
            return ;
        }
        i += 1;
    }
    proof {
        lemma_low_value_full(a@, i as nat);
        lemma_low_value_full(a0, i as nat);
        lemma_value_bound(a@);
        lemma_value_push(a@, 1);
    }
    a.push(1);
}

/// Adds the limbs `b` to the limbs `a`, which are at least as many: limb by
/// limb with the carry, the missing high limbs of `b` taken as zero, and a
/// new limb 1 where the carry leaves the last position.
fn add_big_big(a: &mut Vec<u64>, b: &Vec<u64>)
    requires
        old(a)@.len() >= b@.len(),
    ensures
        limbs_value(final(a)@) == limbs_value(old(a)@) + limbs_value(b@),
        final(a)@.len() == grown_len(limbs_value(old(a)@) + limbs_value(b@), old(a)@.len()),
{
    let ghost a0 = a@;
    let mut c = false;
    let mut i: usize = 0;
    proof {
        assert(base_pow(0) == 1);
    }
    while i < a.len()
        invariant
            i <= a@.len(),
            a@.len() == a0.len(),
            forall|j: int| i <= j < a@.len() ==> a@[j] == a0[j],
            low_value(a@, i as nat) + bit(c) * base_pow(i as nat) == low_value(a0, i as nat)
                + low_value(b@, i as nat),
        decreases a@.len() - i,
    {
        let ghost before = a@;
        let y = if i < b.len() {
            b[i]
        } else {
            0
        };
        let (w, carry) = a[i]._carrying_add(y, c);
        a[i] = w;
        proof {
            let n = i as nat;
            lemma_low_value_agree(before, a@, n);
            lemma_low_value_step(a@, n);
            lemma_low_value_step(a0, n);
            lemma_low_value_step(b@, n);
            lemma_add_step(
                low_value(before, n),
                low_value(a0, n),
                low_value(b@, n),
                base_pow(n),
                w as nat,
                a0[i as int] as nat,
                y as nat,
                bit(c),
                bit(carry),
            );
            assert(base_pow(n + 1) == base() * base_pow(n));
        }
        c = carry;
        i += 1;
    }
    proof {
        lemma_low_value_full(a@, i as nat);
        lemma_low_value_full(a0, i as nat);
        lemma_low_value_full(b@, i as nat);
        lemma_value_bound(a@);
        lemma_value_push(a@, 1);
    }
    if c {
        a.push(1);
    }
}

/// One position of a borrowing subtraction.
proof fn lemma_sub_step(
    l: nat,
    a: nat,
    b: nat,
    p: nat,
    s: nat,
    x: nat,
    y: nat,
    bin: nat,
    bout: nat,
)
    requires
        l - bin * p == a - b,
        s - bout * base() == x - y - bin,
    ensures
        (l + s * p) - bout * (base() * p) == (a + x * p) - (b + y * p),
{
    assert((s - bout * base()) * p == (x - y - bin) * p);
    assert((s - bout * base()) * p == s * p - bout * (base() * p)) by (nonlinear_arith);
    assert((x - y - bin) * p == x * p - y * p - bin * p) by (nonlinear_arith);
}

/// Subtracts the word `b` from the limbs `a`: from limb 0, and then the
/// borrow through the limbs above it. The borrow ends below the last limb,
/// since `b` is not above the value of `a`.
fn sub_big_small(a: &mut Vec<u64>, b: u64)
    requires
        old(a)@.len() >= 1,
        limbs_value(old(a)@) >= b,
    ensures
        limbs_value(final(a)@) == limbs_value(old(a)@) - b,
        final(a)@.len() == old(a)@.len(),
{
    let ghost a0 = a@;
    proof {
        lemma_value_split(a0, 1);
        lemma_low_value_step(a0, 0);
        assert(base_pow(0) == 1);
    }
    let (v, borrow) = a[0]._borrowing_sub(b, false);
    a[0] = v;
    proof {
        lemma_value_split(a@, 1);
        lemma_low_value_step(a@, 0);
        assert(a@.skip(1) =~= a0.skip(1));
        assert(base_pow(1) == base());
    }
    if borrow {
        let mut i: usize = 1;
        while i < a.len()
            invariant
                1 <= i <= a@.len(),
                a0 == old(a)@,
                a@.len() == a0.len(),
                forall|j: int| i <= j < a@.len() ==> a@[j] == a0[j],
                low_value(a@, i as nat) - base_pow(i as nat) == low_value(a0, i as nat) - b,
            decreases a@.len() - i,
        {
            let ghost before = a@;
            let (w, more) = a[i]._borrowing_sub(1, false);
            a[i] = w;
            proof {
                let n = i as nat;
                lemma_low_value_agree(before, a@, n);
                lemma_low_value_step(a@, n);
                lemma_low_value_step(a0, n);
                lemma_sub_step(
                    low_value(before, n),
                    low_value(a0, n),
                    b as nat,
                    base_pow(n),
                    w as nat,
                    a0[i as int] as nat,
                    0,
                    1,
                    bit(more),
                );
                assert(base_pow(n + 1) == base() * base_pow(n));
            }
            if !more {
                proof {
                    lemma_value_split(a@, (i + 1) as nat);
                    lemma_value_split(a0, (i + 1) as nat);
                    assert(a@.skip(i + 1) =~= a0.skip(i + 1));
                }
                return ;
            }
            i += 1;
        }
        proof {
            lemma_low_value_full(a0, i as nat);
            lemma_low_value_bound(a@, i as nat);
        }
    }
}

/// Subtracts the limbs `b` from the limbs `a`: limb by limb with the borrow,
/// the missing high limbs of `b` taken as zero. No borrow is left at the
/// end, since the value of `b` is not above that of `a`.
fn sub_big_big(a: &mut Vec<u64>, b: &Vec<u64>)
    requires
        limbs_value(old(a)@) >= limbs_value(b@),
    ensures
        limbs_value(final(a)@) == limbs_value(old(a)@) - limbs_value(b@),
        final(a)@.len() == old(a)@.len(),
{
    let ghost a0 = a@;
    let mut c = false;
    let mut i: usize = 0;
    proof {
        assert(base_pow(0) == 1);
    }
    while i < a.len()
        invariant
            i <= a@.len(),
            a@.len() == a0.len(),
            forall|j: int| i <= j < a@.len() ==> a@[j] == a0[j],
            low_value(a@, i as nat) - bit(c) * base_pow(i as nat) == low_value(a0, i as nat)
                - low_value(b@, i as nat),
        decreases a@.len() - i,
    {
        let ghost before = a@;
        let y = if i < b.len() {
            b[i]
        } else {
            0
        };
        let (w, borrow) = a[i]._borrowing_sub(y, c);
        a[i] = w;
        proof {
            let n = i as nat;
            lemma_low_value_agree(before, a@, n);
            lemma_low_value_step(a@, n);
            lemma_low_value_step(a0, n);
            lemma_low_value_step(b@, n);
            lemma_sub_step(
                low_value(before, n),
                low_value(a0, n),
                low_value(b@, n),
                base_pow(n),
                w as nat,
                a0[i as int] as nat,
                y as nat,
                bit(c),
                bit(borrow),
            );
            assert(base_pow(n + 1) == base() * base_pow(n));
        }
        c = borrow;
        i += 1;
    }
    proof {
        let n = i as nat;
        lemma_low_value_full(a@, n);
        lemma_low_value_full(a0, n);
        lemma_value_bound(a0);
        lemma_low_value_bound(a@, n);
        lemma_base_pow_positive(n);
        if b@.len() <= n {
            lemma_low_value_full(b@, n);
        } else {
            lemma_value_split(b@, n);
            let high = limbs_value(b@.skip(n as int));
            if high > 0 {
                assert(base_pow(n) * high >= base_pow(n)) by (nonlinear_arith)
                    requires
                        high >= 1,
                ;
            } else {
                assert(base_pow(n) * high == 0) by (nonlinear_arith)
                    requires
                        high == 0,
                ;
            }
        }
        if c {
            assert(bit(c) * base_pow(n) == base_pow(n));
        } else {
            assert(bit(c) * base_pow(n) == 0);
        }
    }
}

/// One position of a multiplication by a word.
proof fn lemma_mul_step(l: nat, a: nat, m: nat, p: nat, lo: nat, hi: nat, x: nat, cin: nat)
    requires
        l + cin * p == a * m,
        lo + hi * base() == x * m + cin,
    ensures
        (l + lo * p) + hi * (base() * p) == (a + x * p) * m,
{
    assert((lo + hi * base()) * p == (x * m + cin) * p);
    assert((lo + hi * base()) * p == lo * p + hi * (base() * p)) by (nonlinear_arith);
    assert((x * m + cin) * p == x * p * m + cin * p) by (nonlinear_arith);
    assert((a + x * p) * m == a * m + x * p * m) by (nonlinear_arith);
}

/// Scales the limbs `a` by the word `b`: limb by limb with a running carry,
/// which becomes a new limb where it is nonzero after the last position.
fn mul_big_small(a: &mut Vec<u64>, b: u64)
    ensures
        limbs_value(final(a)@) == limbs_value(old(a)@) * b,
        final(a)@.len() == grown_len(limbs_value(old(a)@) * b as nat, old(a)@.len()),
{
    let ghost a0 = a@;
    let mut c: u64 = 0;
    let mut i: usize = 0;
    proof {
        assert(base_pow(0) == 1);
        assert(0 * b == 0);
    }
    while i < a.len()
        invariant
            i <= a@.len(),
            a@.len() == a0.len(),
            forall|j: int| i <= j < a@.len() ==> a@[j] == a0[j],
            low_value(a@, i as nat) + c * base_pow(i as nat) == low_value(a0, i as nat) * b,
        decreases a@.len() - i,
    {
        let ghost before = a@;
        let (lo, hi) = a[i]._carrying_mul(b, c);
        a[i] = lo;
        proof {
            let n = i as nat;
            lemma_low_value_agree(before, a@, n);
            lemma_low_value_step(a@, n);
            lemma_low_value_step(a0, n);
            lemma_mul_step(
                low_value(before, n),
                low_value(a0, n),
                b as nat,
                base_pow(n),
                lo as nat,
                hi as nat,
                a0[i as int] as nat,
                c as nat,
            );
            assert(base_pow(n + 1) == base() * base_pow(n));
        }
        c = hi;
        i += 1;
    }
    proof {
        let n = i as nat;
        lemma_low_value_full(a@, n);
        lemma_low_value_full(a0, n);
        lemma_value_bound(a@);
        lemma_value_push(a@, c);
        lemma_base_pow_positive(n);
        if c != 0 {
            assert(c * base_pow(n) >= base_pow(n)) by (nonlinear_arith)
                requires
                    c >= 1,
            ;
        } else {
            assert(c * base_pow(n) == 0);
        }
    }
    if c != 0 {
        a.push(c);
    }
}

/// The bounds, on one more partial product, by which the limbs of the
/// running total of a schoolbook multiplication are counted.
proof fn lemma_partial_product(v: nat, low: nat, d: nat, m: nat, p: nat)
    requires
        v < base_pow(m),
        low < base_pow(p),
        d < base(),
    ensures
        v * (low + d * base_pow(p)) == v * low + (v * d) * base_pow(p),
        v * (low + d * base_pow(p)) < base_pow(m + p + 1),
        v * d >= base_pow(m) ==> v * (low + d * base_pow(p)) >= base_pow(m + p),
        v * low < base_pow(m + p),
{
    let bp = base_pow(p);
    let bm = base_pow(m);
    lemma_base_pow_add(m, p);
    lemma_base_pow_add(m, p + 1);
    lemma_base_pow_positive(p);
    lemma_base_pow_positive(m);
    assert(base_pow(p + 1) == base() * bp);
    assert(v * (low + d * bp) == v * low + (v * d) * bp) by (nonlinear_arith);
    assert(low + d * bp < base() * bp) by (nonlinear_arith)
        requires
            low < bp,
            d + 1 <= base(),
    ;
    assert(v * (low + d * bp) < bm * (base() * bp)) by (nonlinear_arith)
        requires
            v < bm,
            low + d * bp < base() * bp,
    ;
    assert(v * low < bm * bp) by (nonlinear_arith)
        requires
            v < bm,
            low < bp,
    ;
    if v * d >= bm {
        assert((v * d) * bp >= bm * bp) by (nonlinear_arith)
            requires
                v * d >= bm,
        ;
    }
}

/// The schoolbook product of two limb sequences: the sum, over the limbs of
/// `outer`, of `inner` scaled by the limb and shifted to its position.
fn mul_big_big(outer: &Vec<u64>, inner: &Vec<u64>) -> (acc: BigUint)
    requires
        outer@.len() >= 1,
        inner@.len() >= 1,
        outer@.len() + inner@.len() <= usize::MAX,
    ensures
        acc@ == limbs_value(inner@) * limbs_value(outer@),
        acc is Big,
        acc.limbs().len() == grown_len(acc@, (outer@.len() + inner@.len() - 1) as nat),
{
    let ghost v = limbs_value(inner@);
    let ghost m = inner@.len();
    let mut acc = BigUint::Small(0);
    let mut p: usize = 0;
    proof {
        lemma_value_single(0);
        assert(v * 0 == 0);
    }
    while p < outer.len()
        invariant
            p <= outer@.len(),
            inner@.len() == m,
            m >= 1,
            outer@.len() + m <= usize::MAX,
            v == limbs_value(inner@),
            acc@ == v * low_value(outer@, p as nat),
            p == 0 ==> acc.limbs().len() == 1,
            p > 0 ==> acc is Big && acc.limbs().len() == grown_len(acc@, (m + p - 1) as nat),
        decreases outer@.len() - p,
    {
        let d = outer[p];
        let mut scaled = inner.clone();
        assert(scaled@ =~= inner@);
        mul_big_small(&mut scaled, d);
        let mut part = BigUint::Big(scaled);
        part.left_shift_places(p);
        proof {
            let n = p as nat;
            lemma_value_bound(inner@);
            lemma_low_value_bound(outer@, n);
            lemma_low_value_step(outer@, n);
            lemma_partial_product(v, low_value(outer@, n), d as nat, m, n);
            lemma_base_pow_monotonic((m + n - 1) as nat, m + n);
        }
        acc.add_assign(&part);
        p += 1;
    }
    proof {
        lemma_low_value_full(outer@, p as nat);
    }
    acc
}

/// Divides the limbs `a` by the nonzero word `b`, from the most significant
/// limb down: each limb, with the running remainder one place above it, is
/// divided natively, and the quotient digit takes the limb's place.
fn div_big_small(a: &mut Vec<u64>, b: u64) -> (rem: u64)
    requires
        b != 0,
    ensures
        limbs_value(final(a)@) == limbs_value(old(a)@) / b as nat,
        rem == limbs_value(old(a)@) % b as nat,
        final(a)@.len() == old(a)@.len(),
{
    let ghost a0 = a@;
    let mut rem: u64 = 0;
    let mut i: usize = a.len();
    proof {
        assert(a@.skip(i as int) =~= Seq::<u64>::empty());
        assert(0 * b == 0);
    }
    while i > 0
        invariant
            i <= a@.len(),
            a@.len() == a0.len(),
            b != 0,
            rem < b,
            forall|j: int| 0 <= j < i ==> a@[j] == a0[j],
            limbs_value(a0.skip(i as int)) == limbs_value(a@.skip(i as int)) * b + rem,
        decreases i,
    {
        i -= 1;
        let ghost before = a@;
        let combined: u128 = rem as u128 * 0x1_0000_0000_0000_0000u128 + a[i] as u128;
        proof {
            assert(combined < b as int * base()) by (nonlinear_arith)
                requires
                    combined == rem * base() + a0[i as int],
                    rem + 1 <= b,
                    a0[i as int] < base(),
            ;
            lemma_multiply_divide_lt(combined as int, b as int, base() as int);
            lemma_fundamental_div_mod(combined as int, b as int);
        }
        let q = (combined / b as u128) as u64;
        let r = (combined % b as u128) as u64;
        a[i] = q;
        proof {
            let high = limbs_value(before.skip(i + 1));
            lemma_value_skip(a0, i as int);
            lemma_value_skip(a@, i as int);
            assert(a@.skip(i + 1) =~= before.skip(i + 1));
            assert((q + base() * high) * b + r == a0[i as int] + base() * (high * b + rem))
                by (nonlinear_arith)
                requires
                    rem * base() + a0[i as int] == b * q + r,
            ;
        }
        rem = r;
    }
    proof {
        assert(a@.skip(0) =~= a@);
        assert(a0.skip(0) =~= a0);
        lemma_fundamental_div_mod_converse(
            limbs_value(a0) as int,
            b as int,
            limbs_value(a@) as int,
            rem as int,
        );
    }
    rem
}

/// The weight of the quotient bits that are still open when the bits from
/// `bit` upwards are decided: 2 to the power `bit`.
spec fn span(bit: u64) -> nat {
    if bit >= 64 {
        base()
    } else {
        (1u64 << bit) as nat
    }
}

/// One step of long division by a divisor of any size: the quotient digit
/// and the canonical remainder of `combined`, which is below `base()` times
/// the divisor.
///
/// The digit is found bit by bit from the top: a bit is set where the
/// divisor times the digit with that bit is not above `combined`.
fn quotient_digit(combined: &BigUint, divisor: &BigUint) -> (r: (u64, BigUint))
    requires
        divisor@ > 0,
        combined@ < divisor@ * base(),
    ensures
        r.0 == combined@ / divisor@,
        r.1@ == combined@ % divisor@,
        r.1.is_canonical(),
{
    let ghost c = combined@;
    let ghost d = divisor@;
    let mut q: u64 = 0;
    let mut bit: u64 = 64;
    proof {
        lemma_value_single(0);
        assert(0 * d == 0);
        assert((0 + base()) * d == d * base()) by (nonlinear_arith);
    }
    while bit > 0
        invariant
            bit <= 64,
            c == combined@,
            d == divisor@,
            q * d <= c < (q + span(bit)) * d,
            q + span(bit) <= base(),
        decreases bit,
    {
        bit -= 1;
        let step = 1u64 << bit;
        proof {
            assert(bit < 63 ==> (1u64 << (bit + 1) as u64) == 2 * (1u64 << bit)) by (bit_vector)
                requires
                    bit < 64,
            ;
            assert(bit == 63 ==> (1u64 << bit) == 0x8000_0000_0000_0000) by (bit_vector);
            assert(span((bit + 1) as u64) == 2 * step);
        }
        let candidate = q + step;
        let mut product = divisor.clone();
        let factor = BigUint::Small(candidate);
        proof {
            lemma_value_single(candidate);
            assert(candidate * d == d * candidate) by (nonlinear_arith);
            assert((q + 2 * step) * d == (candidate + step) * d);
        }
        product.mul_assign(&factor);
        if product <= *combined {
            q = candidate;
        }
    }
    let mut product = divisor.clone();
    let factor = BigUint::Small(q);
    proof {
        lemma_value_single(q);
        assert(q * d == d * q) by (nonlinear_arith);
        assert(span(0) == 1) by {
            assert(1u64 << 0u64 == 1) by (bit_vector);
        }
        assert((q + 1) * d == q * d + d) by (nonlinear_arith);
    }
    product.mul_assign(&factor);
    let mut rem = combined.clone();
    rem.sub_assign(&product);
    rem.trim();
    proof {
        lemma_fundamental_div_mod_converse(c as int, d as int, q as int, rem@ as int);
    }
    (q, rem)
}

/// Long division of the limbs `a` by a divisor of any size, from the most
/// significant limb down: the running remainder moves one limb place up
/// and takes the limb in, and the quotient digit of that takes the limb's
/// place. Returns the remainder of the last step.
fn div_big_big(a: &mut Vec<u64>, divisor: &BigUint) -> (rem: BigUint)
    requires
        divisor@ > 0,
        divisor.limbs().len() < usize::MAX,
    ensures
        limbs_value(final(a)@) == limbs_value(old(a)@) / divisor@,
        rem@ == limbs_value(old(a)@) % divisor@,
        rem.is_canonical(),
        final(a)@.len() == old(a)@.len(),
{
    let ghost a0 = a@;
    let ghost d = divisor@;
    let mut rem = BigUint::Small(0);
    let mut i: usize = a.len();
    proof {
        assert(a@.skip(i as int) =~= Seq::<u64>::empty());
        lemma_value_single(0);
        assert(0 * d == 0);
        lemma_value_bound(divisor.limbs());
    }
    while i > 0
        invariant
            i <= a@.len(),
            a@.len() == a0.len(),
            d == divisor@,
            d > 0,
            d < base_pow(divisor.limbs().len()),
            divisor.limbs().len() < usize::MAX,
            rem@ < d,
            rem.is_canonical(),
            forall|j: int| 0 <= j < i ==> a@[j] == a0[j],
            limbs_value(a0.skip(i as int)) == limbs_value(a@.skip(i as int)) * d + rem@,
        decreases i,
    {
        i -= 1;
        let ghost before = a@;
        let ghost r0 = rem@;
        proof {
            if divisor.limbs().len() == 0 {
                assert(base_pow(0) == 1);
            }
            rem.lemma_canonical_len(divisor.limbs().len());
            assert(base_pow(1) == base()) by {
                assert(base_pow(0) == 1);
            }
        }
        let mut combined = rem;
        combined.left_shift_places(1);
        combined.trim();
        let limb = BigUint::Small(a[i]);
        proof {
            lemma_value_single(a[i as int]);
        }
        combined.add_assign(&limb);
        proof {
            assert(r0 * base() + a0[i as int] < d * base()) by (nonlinear_arith)
                requires
                    r0 + 1 <= d,
                    a0[i as int] < base(),
            ;
        }
        let (q, r) = quotient_digit(&combined, divisor);
        a[i] = q;
        proof {
            let high = limbs_value(before.skip(i + 1));
            lemma_value_skip(a0, i as int);
            lemma_value_skip(a@, i as int);
            assert(a@.skip(i + 1) =~= before.skip(i + 1));
            lemma_fundamental_div_mod(combined@ as int, d as int);
            assert((q + base() * high) * d + r@ == a0[i as int] + base() * (high * d + r0))
                by (nonlinear_arith)
                requires
                    r0 * base() + a0[i as int] == d * q + r@,
            ;
        }
        rem = r;
    }
    proof {
        assert(a@.skip(0) =~= a@);
        assert(a0.skip(0) =~= a0);
        lemma_fundamental_div_mod_converse(
            limbs_value(a0) as int,
            d as int,
            limbs_value(a@) as int,
            rem@ as int,
        );
    }
    rem
}

impl BigUint {
    /// Adds `rhs` to `self`.
    ///
    /// The sum is `Small` where both operands are and it fits one word, or
    /// where `self` has no limbs and `rhs` is `Small`. Otherwise it is `Big`,
    /// with as many limbs as the longer operand, and one more where the
    /// carry leaves the last of them.
    pub fn add_assign(&mut self, rhs: &Self)
        ensures
            final(self)@ == old(self)@ + rhs@,
            *final(self) is Small <==> *rhs is Small && (old(self).limbs().len() == 0 || (*old(
                self,
            ) is Small && old(self)@ + rhs@ < base())),
            *final(self) is Big ==> final(self).limbs().len() == grown_len(
                old(self)@ + rhs@,
                if old(self).limbs().len() > rhs.limbs().len() {
                    old(self).limbs().len()
                } else {
                    rhs.limbs().len()
                },
            ),
    {
        match (&mut *self, rhs) {
            (Self::Small(a), Self::Small(b)) => {
                let (v, c) = (*a)._carrying_add(*b, false);
                proof {
                    lemma_value_single(*a);
                    lemma_value_single(*b);
                    lemma_value_single(v);
                    assert(base_pow(1) == base()) by {
                        assert(base_pow(0) == 1);
                    }
                }
                if c {
                    let mut limbs: Vec<u64> = Vec::new();
                    limbs.push(v);
                    limbs.push(1);
                    proof {
                        assert(limbs@ =~= seq![v].push(1));
                        lemma_value_push(seq![v], 1);
                    }
                    *self = Self::Big(limbs);
                } else {
                    *self = Self::Small(v);
                }
            },
            (Self::Big(a), Self::Small(b)) => {
                proof {
                    lemma_value_single(*b);
                }
                if a.len() < 1 {
                    *self = Self::Small(*b);
                } else {
                    add_big_small(a, *b);
                }
            },
            (_, Self::Big(b)) => {
                let mut a = self.take().inflate_vec(b.len());
                add_big_big(&mut a, b);
                *self = Self::Big(a);
            },
        }
    }

    /// Subtracts `rhs`, which is not above `self`, from `self`.
    ///
    /// Equal operands leave `Small(0)`. Otherwise `self` keeps its form and
    /// the number of its limbs, with no trimming.
    pub fn sub_assign(&mut self, rhs: &Self)
        requires
            old(self)@ >= rhs@,
        ensures
            final(self)@ == old(self)@ - rhs@,
            old(self)@ == rhs@ ==> *final(self) == BigUint::Small(0),
            old(self)@ > rhs@ ==> (*final(self) is Small <==> *old(self) is Small),
            old(self)@ > rhs@ ==> final(self).limbs().len() == old(self).limbs().len(),
    {
        match self.cmp(rhs) {
            Ordering::Equal => {
                proof {
                    lemma_value_single(0);
                }
                *self = Self::Small(0);
                return ;
            },
            _ => {},
        }
        match (&mut *self, rhs) {
            (Self::Small(a), Self::Small(b)) => {
                proof {
                    lemma_value_single(*a);
                    lemma_value_single(*b);
                }
                let v = *a - *b;
                proof {
                    lemma_value_single(v);
                }
                *a = v;
            },
            (Self::Small(a), Self::Big(_)) => {
                // `rhs` is below `self`, so its value is in limb 0, if it has one.
                proof {
                    lemma_value_single(*a);
                }
                if let Some(low) = rhs.to_word() {
                    let v = *a - low;
                    proof {
                        lemma_value_single(v);
                    }
                    *a = v;
                }
            },
            (Self::Big(a), Self::Small(b)) => {
                proof {
                    lemma_value_single(*b);
                }
                sub_big_small(a, *b);
            },
            (Self::Big(a), Self::Big(b)) => {
                sub_big_big(a, b);
            },
        }
    }

    /// Multiplies `self` by `rhs`.
    ///
    /// Where either operand is zero the product is `Small(0)`. Otherwise it
    /// is `Small` where both operands are and it fits one word, and else
    /// `Big`, with one limb fewer than the two operands have together, and
    /// one more where the product does not fit there.
    pub fn mul_assign(&mut self, rhs: &Self)
        requires
            *old(self) is Big && *rhs is Big ==> old(self).limbs().len() + rhs.limbs().len()
                <= usize::MAX,
        ensures
            final(self)@ == old(self)@ * rhs@,
            old(self)@ == 0 || rhs@ == 0 ==> *final(self) == BigUint::Small(0),
            old(self)@ != 0 && rhs@ != 0 ==> (*final(self) is Small <==> *old(self) is Small
                && *rhs is Small && old(self)@ * rhs@ < base()),
            old(self)@ != 0 && rhs@ != 0 && *final(self) is Big ==> final(self).limbs().len()
                == grown_len(
                old(self)@ * rhs@,
                (old(self).limbs().len() + rhs.limbs().len() - 1) as nat,
            ),
    {
        if *rhs == 0u64 || *self == 0u64 {
            proof {
                lemma_value_single(0);
                assert(self@ * rhs@ == 0) by (nonlinear_arith)
                    requires
                        self@ == 0 || rhs@ == 0,
                ;
            }
            *self = BigUint::Small(0);
            return ;
        }
        proof {
            lemma_value_zero_iff(self.limbs());
            lemma_value_zero_iff(rhs.limbs());
            assert(rhs@ * self@ == self@ * rhs@) by (nonlinear_arith);
            assert(base_pow(1) == base()) by {
                assert(base_pow(0) == 1);
            }
        }
        match (&mut *self, rhs) {
            (Self::Small(a), Self::Small(b)) => {
                let (v, c) = (*a)._carrying_mul(*b, 0);
                proof {
                    lemma_value_single(*a);
                    lemma_value_single(*b);
                    lemma_value_single(v);
                    if c != 0 {
                        assert(c * base() >= base()) by (nonlinear_arith)
                            requires
                                c >= 1,
                        ;
                    }
                }
                if c == 0 {
                    *self = Self::Small(v);
                } else {
                    let mut limbs: Vec<u64> = Vec::new();
                    limbs.push(v);
                    limbs.push(c);
                    proof {
                        assert(limbs@ =~= seq![v].push(c));
                        lemma_value_push(seq![v], c);
                    }
                    *self = Self::Big(limbs);
                }
            },
            (Self::Big(a), Self::Small(b)) => {
                proof {
                    lemma_value_single(*b);
                }
                mul_big_small(a, *b);
            },
            (Self::Small(a), Self::Big(b)) => {
                proof {
                    lemma_value_single(*a);
                }
                let mut scaled = b.clone();
                assert(scaled@ =~= b@);
                mul_big_small(&mut scaled, *a);
                *self = Self::Big(scaled);
            },
            (Self::Big(a), Self::Big(b)) => {
                let acc = if a.len() <= b.len() {
                    mul_big_big(a, b)
                } else {
                    mul_big_big(b, a)
                };
                *self = acc;
            },
        }
    }

    /// Divides `self` by `rhs`, which is not zero, and returns the remainder.
    ///
    /// A dividend below the divisor is handed back as the remainder, as it
    /// is, and leaves `Small(0)`. Otherwise the quotient takes the place of
    /// the dividend, in its form and with the number of its limbs, and the
    /// remainder is canonical.
    pub fn div_assign_rem(&mut self, rhs: &Self) -> (rem: Self)
        requires
            rhs@ != 0,
            rhs.limbs().len() < usize::MAX,
        ensures
            final(self)@ == old(self)@ / rhs@,
            rem@ == old(self)@ % rhs@,
            old(self)@ < rhs@ ==> *final(self) == BigUint::Small(0) && rem == *old(self),
            old(self)@ >= rhs@ ==> (*final(self) is Small <==> *old(self) is Small),
            old(self)@ >= rhs@ ==> final(self).limbs().len() == old(self).limbs().len(),
            old(self)@ >= rhs@ ==> rem.is_canonical(),
    {
        if *self < *rhs {
            proof {
                lemma_value_single(0);
                lemma_fundamental_div_mod_converse(self@ as int, rhs@ as int, 0, self@ as int);
            }
            return self.take();
        }
        match rhs.to_word() {
            Some(b) => {
                match self {
                    BigUint::Small(a) => {
                        proof {
                            lemma_value_single(*a);
                        }
                        let r = *a % b;
                        let q = *a / b;
                        proof {
                            lemma_value_single(q);
                            lemma_value_single(r);
                        }
                        *a = q;
                        BigUint::Small(r)
                    },
                    BigUint::Big(a) => {
                        let r = div_big_small(a, b);
                        proof {
                            lemma_value_single(r);
                        }
                        BigUint::Small(r)
                    },
                }
            },
            None => {
                // The divisor has more than one significant limb, and so has the dividend.
                proof {
                    lemma_value_bound(self.limbs());
                    assert(base_pow(1) == base()) by {
                        assert(base_pow(0) == 1);
                    }
                }
                let mut a = self.take().inflate_vec(0);
                let r = div_big_big(&mut a, rhs);
                *self = BigUint::Big(a);
                r
            },
        }
    }

    /// Divides `self` by `rhs`, which is not zero.
    pub fn div_assign(&mut self, rhs: &Self)
        requires
            rhs@ != 0,
            rhs.limbs().len() < usize::MAX,
        ensures
            final(self)@ == old(self)@ / rhs@,
            old(self)@ < rhs@ ==> *final(self) == BigUint::Small(0),
            old(self)@ >= rhs@ ==> (*final(self) is Small <==> *old(self) is Small),
            old(self)@ >= rhs@ ==> final(self).limbs().len() == old(self).limbs().len(),
    {
        self.div_assign_rem(rhs);
    }

    /// Replaces `self` by its remainder on division by `rhs`, which is not zero.
    pub fn rem_assign(&mut self, rhs: &Self)
        requires
            rhs@ != 0,
            rhs.limbs().len() < usize::MAX,
        ensures
            final(self)@ == old(self)@ % rhs@,
            old(self)@ < rhs@ ==> *final(self) == *old(self),
            old(self)@ >= rhs@ ==> final(self).is_canonical(),
    {
        let rem = self.div_assign_rem(rhs);
        *self = rem;
    }
}

} // verus!
