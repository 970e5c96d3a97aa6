//! The arithmetic meaning of a limb sequence.
//!
//! A fraction is stored as `n` limbs of 64 bits, most significant first. Read
//! as one number in radix 2^64 the limbs give a natural number below
//! `modulus(n)`; the fraction that they stand for is that number divided by
//! `modulus(n)`. All arithmetic on fractions is arithmetic on these numbers,
//! reduced modulo `modulus(n)`.

use vstd::arithmetic::div_mod::*;
use vstd::arithmetic::power::*;
use vstd::prelude::*;

verus! {

/// The radix of one limb, 2^64.
pub open spec fn base() -> nat {
    0x1_0000_0000_0000_0000
}

/// The radix raised to the number of limbs: what the value 1.0 would be, were
/// it representable in `n` limbs.
pub open spec fn modulus(n: nat) -> nat {
    pow(base() as int, n) as nat
}

/// Reduction of an integer into the range of `n` limbs.
pub open spec fn wrap(v: int, n: nat) -> nat {
    (v % (modulus(n) as int)) as nat
}

/// The numerator of `1 / x^e` in `n` limbs, rounded down. For `x == 1` the
/// quotient is 1.0 and wraps to zero.
pub open spec fn reciprocal_power(x: nat, n: nat, e: nat) -> nat {
    wrap(modulus(n) as int / pow(x as int, e), n)
}

/// The number that the limbs spell in radix 2^64, most significant limb first.
pub open spec fn limbs_value(s: Seq<u64>) -> nat
    decreases s.len(),
{
    if s.len() == 0 {
        0
    } else {
        limbs_value(s.drop_last()) * base() + s.last() as nat
    }
}

/// The first `k` limbs of `s` exist and are all zero.
pub open spec fn zero_prefix(s: Seq<u64>, k: int) -> bool {
    &&& 0 <= k <= s.len()
    &&& forall|i: int| 0 <= i < k ==> s[i] == 0
}

/// How many limbs at the most significant end of `s` are zero.
pub open spec fn leading_zero_count(s: Seq<u64>) -> nat
    decreases s.len(),
{
    if s.len() == 0 || s[0] != 0 {
        0
    } else {
        1 + leading_zero_count(s.drop_first())
    }
}

/// The modulus is never zero.
pub proof fn lemma_modulus_positive(n: nat)
    ensures
        modulus(n) > 0,
{
    lemma_pow_positive(base() as int, n);
}

/// No limbs hold a single value, zero.
pub proof fn lemma_modulus_zero()
    ensures
        modulus(0) == 1,
{
    lemma_pow0(base() as int);
}

/// One limb more multiplies the modulus by the radix.
pub proof fn lemma_modulus_step(n: nat)
    ensures
        modulus(n + 1) == modulus(n) * base(),
{
    lemma_pow_positive(base() as int, n);
    lemma_pow_positive(base() as int, n + 1);
    lemma_pow_adds(base() as int, n, 1);
    lemma_pow1(base() as int);
}

/// Appending a limb shifts the value up by one limb and adds the new limb.
pub proof fn lemma_value_push(s: Seq<u64>, d: u64)
    ensures
        limbs_value(s.push(d)) == limbs_value(s) * base() + d as nat,
{
    assert(s.push(d).drop_last() =~= s);
}

/// The value of the first `i + 1` limbs, from the value of the first `i`.
pub proof fn lemma_value_take_step(s: Seq<u64>, i: int)
    requires
        0 <= i < s.len(),
    ensures
        limbs_value(s.take(i + 1)) == limbs_value(s.take(i)) * base() + s[i] as nat,
{
    assert(s.take(i + 1).drop_last() =~= s.take(i));
}

/// `n` limbs spell a number below `modulus(n)`.
pub proof fn lemma_value_bound(s: Seq<u64>)
    ensures
        limbs_value(s) < modulus(s.len()),
    decreases s.len(),
{
    if s.len() == 0 {
        lemma_modulus_zero();
    } else {
        let t = s.drop_last();
        lemma_value_bound(t);
        lemma_modulus_step(t.len());
        let v = limbs_value(t);
        let m = modulus(t.len());
        let l = s.last() as nat;
        assert(v * base() + l < m * base()) by (nonlinear_arith)
            requires
                v < m,
                l < base(),
        ;
    }
}

/// The value of a concatenation.
pub proof fn lemma_value_concat(a: Seq<u64>, b: Seq<u64>)
    ensures
        limbs_value(a + b) == limbs_value(a) * modulus(b.len()) + limbs_value(b),
    decreases b.len(),
{
    if b.len() == 0 {
        assert(a + b =~= a);
        lemma_modulus_zero();
        assert(limbs_value(a) * modulus(0) == limbs_value(a)) by (nonlinear_arith)
            requires
                modulus(0) == 1,
        ;
    } else {
        let bt = b.drop_last();
        assert((a + b).drop_last() =~= a + bt);
        lemma_value_concat(a, bt);
        lemma_modulus_step(bt.len());
        let va = limbs_value(a);
        let m = modulus(bt.len());
        let vb = limbs_value(bt);
        assert(b.len() == bt.len() + 1);
        assert((a + b).last() == b.last());
        assert(limbs_value(a + b) == (va * m + vb) * base() + b.last() as nat);
        assert((va * m + vb) * base() == va * (m * base()) + vb * base()) by (nonlinear_arith);
        assert(modulus(b.len()) == m * base());
        assert(limbs_value(b) == vb * base() + b.last() as nat);
    }
}

/// The value split at limb `i` into a high and a low part.
pub proof fn lemma_value_split(s: Seq<u64>, i: int)
    requires
        0 <= i <= s.len(),
    ensures
        limbs_value(s) == limbs_value(s.take(i)) * modulus((s.len() - i) as nat) + limbs_value(
            s.skip(i),
        ),
{
    assert(s =~= s.take(i) + s.skip(i));
    lemma_value_concat(s.take(i), s.skip(i));
}

/// The value of the limbs from `i - 1` on, from the value of those from `i` on.
pub proof fn lemma_value_skip_step(s: Seq<u64>, i: int)
    requires
        0 < i <= s.len(),
    ensures
        limbs_value(s.skip(i - 1)) == s[i - 1] as nat * modulus((s.len() - i) as nat)
            + limbs_value(s.skip(i)),
{
    let head = seq![s[i - 1]];
    assert(s.skip(i - 1) =~= head + s.skip(i));
    lemma_value_concat(head, s.skip(i));
    assert(head.drop_last() =~= Seq::<u64>::empty());
    assert(limbs_value(head) == s[i - 1] as nat) by {
        reveal_with_fuel(limbs_value, 2);
    }
}

/// Zero limbs spell zero.
pub proof fn lemma_zero_limbs_value(s: Seq<u64>)
    requires
        zero_prefix(s, s.len() as int),
    ensures
        limbs_value(s) == 0,
    decreases s.len(),
{
    if s.len() > 0 {
        lemma_zero_limbs_value(s.drop_last());
    }
}

/// Leading zero limbs do not count towards the value.
pub proof fn lemma_zero_prefix_value(s: Seq<u64>, k: int)
    requires
        zero_prefix(s, k),
    ensures
        limbs_value(s.take(k)) == 0,
        limbs_value(s) == limbs_value(s.skip(k)),
        limbs_value(s) < modulus((s.len() - k) as nat),
{
    lemma_zero_limbs_value(s.take(k));
    lemma_value_split(s, k);
    lemma_value_bound(s.skip(k));
}

/// A number spelled with a non-zero limb is not zero.
pub proof fn lemma_nonzero_limb_value(s: Seq<u64>, i: int)
    requires
        0 <= i < s.len(),
        s[i] != 0,
    ensures
        limbs_value(s) > 0,
    decreases s.len(),
{
    if i == s.len() - 1 {
    } else {
        let t = s.drop_last();
        lemma_nonzero_limb_value(t, i);
        assert(limbs_value(t) * base() > 0) by (nonlinear_arith)
            requires
                limbs_value(t) > 0,
                base() > 0,
        ;
    }
}

/// Two limb sequences of one length that spell the same number are equal.
pub proof fn lemma_value_injective(a: Seq<u64>, b: Seq<u64>)
    requires
        a.len() == b.len(),
        limbs_value(a) == limbs_value(b),
    ensures
        a == b,
    decreases a.len(),
{
    if a.len() == 0 {
        assert(a =~= b);
    } else {
        let va = limbs_value(a.drop_last());
        let vb = limbs_value(b.drop_last());
        let la = a.last() as nat;
        let lb = b.last() as nat;
        assert(va == vb && la == lb) by (nonlinear_arith)
            requires
                va * base() + la == vb * base() + lb,
                la < base(),
                lb < base(),
                base() > 0,
        ;
        lemma_value_injective(a.drop_last(), b.drop_last());
        assert(a =~= a.drop_last().push(a.last()));
        assert(b =~= b.drop_last().push(b.last()));
    }
}

/// `leading_zero_count` counts a zero prefix, and the longest one.
pub proof fn lemma_leading_zero_count(s: Seq<u64>)
    ensures
        zero_prefix(s, leading_zero_count(s) as int),
        leading_zero_count(s) < s.len() ==> s[leading_zero_count(s) as int] != 0,
    decreases s.len(),
{
    if s.len() == 0 || s[0] != 0 {
    } else {
        let t = s.drop_first();
        lemma_leading_zero_count(t);
        let c = leading_zero_count(t) as int;
        assert forall|i: int| 0 <= i < c + 1 implies s[i] == 0 by {
            if i > 0 {
                assert(s[i] == t[i - 1]);
            }
        }
        if c < t.len() {
            assert(s[c + 1] == t[c]);
        }
    }
}

/// Every zero prefix is at most `leading_zero_count` long.
pub proof fn lemma_zero_prefix_le_count(s: Seq<u64>, k: int)
    requires
        zero_prefix(s, k),
    ensures
        k <= leading_zero_count(s),
{
    lemma_leading_zero_count(s);
    let c = leading_zero_count(s) as int;
    if c < k {
        assert(s[c] == 0);
    }
}

/// A zero prefix that ends at a non-zero limb, or at the end, is the longest.
pub proof fn lemma_zero_prefix_is_count(s: Seq<u64>, k: int)
    requires
        zero_prefix(s, k),
        k < s.len() ==> s[k] != 0,
    ensures
        k == leading_zero_count(s),
{
    lemma_leading_zero_count(s);
    lemma_zero_prefix_le_count(s, k);
    let c = leading_zero_count(s) as int;
    if k < c {
        assert(s[k] == 0);
    }
}

/// The limbs spell zero exactly when every limb is a leading zero.
pub proof fn lemma_value_zero_iff(s: Seq<u64>)
    ensures
        limbs_value(s) == 0 <==> leading_zero_count(s) == s.len(),
{
    lemma_leading_zero_count(s);
    let c = leading_zero_count(s) as int;
    if c == s.len() {
        lemma_zero_limbs_value(s);
    } else {
        lemma_nonzero_limb_value(s, c);
    }
}

} // verus!
