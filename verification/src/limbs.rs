use vstd::prelude::*;

verus! {

/// The radix in which limbs are weighted: 2^64.
pub open spec fn base() -> nat {
    0x1_0000_0000_0000_0000
}

/// `base()` raised to the power `n`: the weight of the limb at index `n`.
pub open spec fn base_pow(n: nat) -> nat
    decreases n,
{
    if n == 0 {
        1
    } else {
        base() * base_pow((n - 1) as nat)
    }
}

/// The number that a little-endian limb sequence stands for: the sum of
/// `s[i] * base_pow(i)` over all its indices.
pub open spec fn limbs_value(s: Seq<u64>) -> nat
    decreases s.len(),
{
    if s.len() == 0 {
        0
    } else {
        limbs_value(s.drop_last()) + s.last() as nat * base_pow((s.len() - 1) as nat)
    }
}

/// `n` zero limbs.
pub open spec fn zeros(n: nat) -> Seq<u64> {
    Seq::new(n, |i: int| 0u64)
}

/// The limb at index `i`, where the limbs beyond the end of `s` are zero.
pub open spec fn limb_at(s: Seq<u64>, i: int) -> u64 {
    if 0 <= i < s.len() {
        s[i]
    } else {
        0
    }
}

/// The `n` least significant limbs of `s`, which is extended by zero limbs
/// where it is shorter.
pub open spec fn low_limbs(s: Seq<u64>, n: nat) -> Seq<u64> {
    Seq::new(n, |i: int| limb_at(s, i))
}

/// The value of the `n` least significant limbs of `s`.
pub open spec fn low_value(s: Seq<u64>, n: nat) -> nat {
    limbs_value(low_limbs(s, n))
}

/// Every power of the base is positive.
pub proof fn lemma_base_pow_positive(n: nat)
    ensures
        base_pow(n) > 0,
    decreases n,
{
    if n > 0 {
        lemma_base_pow_positive((n - 1) as nat);
        assert(base() * base_pow((n - 1) as nat) > 0) by (nonlinear_arith)
            requires
                base() > 0,
                base_pow((n - 1) as nat) > 0,
        ;
    }
}

/// The power of a sum is the product of the powers.
pub proof fn lemma_base_pow_add(a: nat, b: nat)
    ensures
        base_pow(a + b) == base_pow(a) * base_pow(b),
    decreases b,
{
    if b == 0 {
        assert(base_pow(a) * 1 == base_pow(a));
    } else {
        lemma_base_pow_add(a, (b - 1) as nat);
        assert(a + b - 1 == a + (b - 1) as nat);
        assert(base() * (base_pow(a) * base_pow((b - 1) as nat)) == base_pow(a) * (base()
            * base_pow((b - 1) as nat))) by (nonlinear_arith);
    }
}

/// The powers of the base grow with the exponent.
pub proof fn lemma_base_pow_monotonic(a: nat, b: nat)
    requires
        a <= b,
    ensures
        base_pow(a) <= base_pow(b),
{
    lemma_base_pow_add(a, (b - a) as nat);
    lemma_base_pow_positive((b - a) as nat);
    lemma_base_pow_positive(a);
    assert(base_pow(a) * 1 <= base_pow(a) * base_pow((b - a) as nat)) by (nonlinear_arith)
        requires
            base_pow((b - a) as nat) >= 1,
    ;
}

/// A limb sequence of length `n` stands for a number below `base_pow(n)`.
pub proof fn lemma_value_bound(s: Seq<u64>)
    ensures
        limbs_value(s) < base_pow(s.len()),
    decreases s.len(),
{
    if s.len() > 0 {
        let p = base_pow((s.len() - 1) as nat);
        lemma_value_bound(s.drop_last());
        assert(s.last() as nat * p + p <= base() * p) by (nonlinear_arith)
            requires
                s.last() as nat + 1 <= base(),
        ;
    }
}

/// A limb pushed above the others adds itself with the weight of its index.
pub proof fn lemma_value_push(s: Seq<u64>, x: u64)
    ensures
        limbs_value(s.push(x)) == limbs_value(s) + x as nat * base_pow(s.len()),
{
    assert(s.push(x).drop_last() =~= s);
}

/// One limb stands for its word.
pub proof fn lemma_value_single(x: u64)
    ensures
        limbs_value(seq![x]) == x as nat,
{
    assert(seq![x] =~= Seq::<u64>::empty().push(x));
    lemma_value_push(Seq::<u64>::empty(), x);
    assert(base_pow(0) == 1);
    assert(x as nat * 1 == x as nat);
}

/// Appending `b` above `a` adds the value of `b`, weighted by the length of `a`.
pub proof fn lemma_value_concat(a: Seq<u64>, b: Seq<u64>)
    ensures
        limbs_value(a + b) == limbs_value(a) + base_pow(a.len()) * limbs_value(b),
    decreases b.len(),
{
    if b.len() == 0 {
        assert(a + b =~= a);
        assert(base_pow(a.len()) * 0 == 0);
    } else {
        let high = (b.len() - 1) as nat;
        assert((a + b).drop_last() =~= a + b.drop_last());
        lemma_value_concat(a, b.drop_last());
        lemma_base_pow_add(a.len(), high);
        assert(base_pow(a.len()) * (limbs_value(b.drop_last()) + b.last() as nat * base_pow(high))
            == base_pow(a.len()) * limbs_value(b.drop_last()) + b.last() as nat * (base_pow(
            a.len(),
        ) * base_pow(high))) by (nonlinear_arith);
    }
}

/// Zero limbs stand for zero.
pub proof fn lemma_value_zeros(n: nat)
    ensures
        limbs_value(zeros(n)) == 0,
    decreases n,
{
    if n > 0 {
        assert(zeros(n).drop_last() =~= zeros((n - 1) as nat));
        lemma_value_zeros((n - 1) as nat);
        assert(0 * base_pow((n - 1) as nat) == 0);
    }
}

/// Zero limbs at the most significant end do not change the value.
pub proof fn lemma_value_trailing_zeros(s: Seq<u64>, n: nat)
    ensures
        limbs_value(s + zeros(n)) == limbs_value(s),
{
    lemma_value_concat(s, zeros(n));
    lemma_value_zeros(n);
    assert(base_pow(s.len()) * 0 == 0);
}

/// The value from index `i` upwards is the limb at `i` plus `base()` times
/// the value from index `i + 1` upwards.
pub proof fn lemma_value_skip(s: Seq<u64>, i: int)
    requires
        0 <= i < s.len(),
    ensures
        limbs_value(s.skip(i)) == s[i] as nat + base() * limbs_value(s.skip(i + 1)),
{
    assert(s.skip(i) =~= seq![s[i]] + s.skip(i + 1));
    lemma_value_concat(seq![s[i]], s.skip(i + 1));
    lemma_value_single(s[i]);
    assert(base_pow(1) == base()) by {
        assert(base_pow(0) == 1);
        assert(base() * 1 == base());
    }
}

/// A sequence stands for zero exactly when all its limbs are zero.
pub proof fn lemma_value_zero_iff(s: Seq<u64>)
    ensures
        limbs_value(s) == 0 <==> (forall|i: int| 0 <= i < s.len() ==> s[i] == 0),
    decreases s.len(),
{
    if s.len() > 0 {
        let p = base_pow((s.len() - 1) as nat);
        let t = s.drop_last();
        lemma_value_zero_iff(t);
        lemma_base_pow_positive((s.len() - 1) as nat);
        if s.last() == 0 {
            assert(0 * p == 0);
            if limbs_value(s) == 0 {
                assert forall|i: int| 0 <= i < s.len() implies s[i] == 0 by {
                    if i < s.len() - 1 {
                        assert(t[i] == s[i]);
                    }
                }
            } else {
                if forall|i: int| 0 <= i < s.len() ==> s[i] == 0 {
                    assert forall|i: int| 0 <= i < t.len() implies t[i] == 0 by {
                        assert(t[i] == s[i]);
                    }
                }
            }
        } else {
            assert(s.last() as nat * p >= p) by (nonlinear_arith)
                requires
                    s.last() as nat >= 1,
            ;
        }
    }
}

/// Two numbers written with the same digit weight `p` agree digit by digit.
pub proof fn lemma_split_unique(x1: nat, y1: nat, x2: nat, y2: nat, p: nat)
    requires
        x1 < p,
        x2 < p,
        x1 + y1 * p == x2 + y2 * p,
    ensures
        x1 == x2,
        y1 == y2,
{
    if y1 < y2 {
        assert(y2 * p >= y1 * p + p) by (nonlinear_arith)
            requires
                y1 + 1 <= y2,
        ;
    } else if y2 < y1 {
        assert(y1 * p >= y2 * p + p) by (nonlinear_arith)
            requires
                y2 + 1 <= y1,
        ;
    }
}

/// Limb sequences of one length that stand for the same number are the same.
pub proof fn lemma_value_unique(a: Seq<u64>, b: Seq<u64>)
    requires
        a.len() == b.len(),
        limbs_value(a) == limbs_value(b),
    ensures
        a == b,
    decreases a.len(),
{
    if a.len() == 0 {
        assert(a =~= b);
    } else {
        let p = base_pow((a.len() - 1) as nat);
        lemma_value_bound(a.drop_last());
        lemma_value_bound(b.drop_last());
        lemma_split_unique(
            limbs_value(a.drop_last()),
            a.last() as nat,
            limbs_value(b.drop_last()),
            b.last() as nat,
            p,
        );
        lemma_value_unique(a.drop_last(), b.drop_last());
        assert(a =~= a.drop_last().push(a.last()));
        assert(b =~= b.drop_last().push(b.last()));
    }
}

/// One more limb position adds that limb with its weight.
pub proof fn lemma_low_value_step(s: Seq<u64>, n: nat)
    ensures
        low_value(s, n + 1) == low_value(s, n) + limb_at(s, n as int) as nat * base_pow(n),
{
    assert(low_limbs(s, n + 1).drop_last() =~= low_limbs(s, n));
}

/// The `n` least significant limbs stand for a number below `base_pow(n)`.
pub proof fn lemma_low_value_bound(s: Seq<u64>, n: nat)
    ensures
        low_value(s, n) < base_pow(n),
{
    lemma_value_bound(low_limbs(s, n));
}

/// From the length of `s` on, the low limbs hold the whole value.
pub proof fn lemma_low_value_full(s: Seq<u64>, n: nat)
    requires
        n >= s.len(),
    ensures
        low_value(s, n) == limbs_value(s),
{
    assert(low_limbs(s, n) =~= s + zeros((n - s.len()) as nat));
    lemma_value_trailing_zeros(s, (n - s.len()) as nat);
}

/// The low limbs depend only on the limbs below `n`.
pub proof fn lemma_low_value_agree(s: Seq<u64>, t: Seq<u64>, n: nat)
    requires
        forall|i: int| 0 <= i < n ==> limb_at(s, i) == limb_at(t, i),
    ensures
        low_value(s, n) == low_value(t, n),
{
    assert(low_limbs(s, n) =~= low_limbs(t, n));
}

/// The value splits at any index into the low limbs and the weighted rest.
pub proof fn lemma_value_split(s: Seq<u64>, k: nat)
    requires
        k <= s.len(),
    ensures
        limbs_value(s) == low_value(s, k) + base_pow(k) * limbs_value(s.skip(k as int)),
{
    assert(low_limbs(s, k) =~= s.take(k as int));
    assert(s =~= s.take(k as int) + s.skip(k as int));
    lemma_value_concat(s.take(k as int), s.skip(k as int));
}

/// 1 for a carry or borrow that is set, and else 0.
pub open spec fn bit(c: bool) -> nat {
    if c {
        1
    } else {
        0
    }
}

/// The number of limbs that hold `value`, given `n` to begin with: one more
/// where `value` does not fit in `n`.
pub open spec fn grown_len(value: nat, n: nat) -> nat {
    if value < base_pow(n) {
        n
    } else {
        n + 1
    }
}

/// Two limb sequences stand for the same number exactly when they agree at
/// every limb position, the shorter one extended by zero limbs.
pub proof fn lemma_value_eq_iff(a: Seq<u64>, b: Seq<u64>)
    ensures
        limbs_value(a) == limbs_value(b) <==> (forall|i: int| #[trigger]
            limb_at(a, i) == limb_at(b, i)),
{
    let n = if a.len() > b.len() {
        a.len()
    } else {
        b.len()
    };
    lemma_low_value_full(a, n);
    lemma_low_value_full(b, n);
    if forall|i: int| #[trigger] limb_at(a, i) == limb_at(b, i) {
        lemma_low_value_agree(a, b, n);
    }
    if limbs_value(a) == limbs_value(b) {
        lemma_value_unique(low_limbs(a, n), low_limbs(b, n));
        assert forall|i: int| #[trigger] limb_at(a, i) == limb_at(b, i) by {
            if 0 <= i < n {
                assert(low_limbs(a, n)[i] == limb_at(a, i));
                assert(low_limbs(b, n)[i] == limb_at(b, i));
            }
        }
    }
}

/// With one more limb position, the limbs at that position decide the order
/// where they differ, and the positions below decide it where they agree.
pub proof fn lemma_low_value_order(a: Seq<u64>, b: Seq<u64>, n: nat)
    ensures
        limb_at(a, n as int) < limb_at(b, n as int) ==> low_value(a, n + 1) < low_value(b, n + 1),
        limb_at(a, n as int) > limb_at(b, n as int) ==> low_value(a, n + 1) > low_value(b, n + 1),
        limb_at(a, n as int) == limb_at(b, n as int) ==> low_value(a, n + 1) - low_value(b, n + 1)
            == low_value(a, n) - low_value(b, n),
{
    let p = base_pow(n);
    let x = limb_at(a, n as int) as nat;
    let y = limb_at(b, n as int) as nat;
    lemma_low_value_step(a, n);
    lemma_low_value_step(b, n);
    lemma_low_value_bound(a, n);
    lemma_low_value_bound(b, n);
    if x < y {
        assert(y * p >= x * p + p) by (nonlinear_arith)
            requires
                x + 1 <= y,
        ;
    } else if y < x {
        assert(x * p >= y * p + p) by (nonlinear_arith)
            requires
                y + 1 <= x,
        ;
    }
}

} // verus!
