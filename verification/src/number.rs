//! `Number`: a fraction of fixed precision, held as limbs of 64 bits.
//!
//! A `Number` of `n` limbs stands for `value() / modulus(n)`, a fraction in
//! [0, 1). Addition, subtraction and scaling wrap around at 1: a sum of series
//! terms may pass through values outside [0, 1) and still end on the right
//! residue. Beside the limbs a `Number` caches how many leading limbs are
//! known to be zero, so that each operation can skip them.

use crate::limbs::{
    base, leading_zero_count, lemma_leading_zero_count, lemma_modulus_positive, lemma_modulus_step,
    lemma_modulus_zero, lemma_value_bound, lemma_value_skip_step, lemma_value_split,
    lemma_value_take_step, lemma_value_zero_iff, lemma_zero_limbs_value,
    lemma_zero_prefix_is_count, lemma_zero_prefix_le_count, lemma_zero_prefix_value, limbs_value,
    modulus, reciprocal_power, wrap, zero_prefix,
};
use vstd::arithmetic::div_mod::*;
use vstd::prelude::*;

verus! {

/// A fraction in [0, 1) with a fixed number of 64-bit limbs, most significant
/// limb first.
pub struct Number {
    /// At least this many leading limbs are zero.
    zeros: usize,
    digits: Vec<u64>,
}

impl View for Number {
    type V = Seq<u64>;

    /// The limbs, most significant first.
    closed spec fn view(&self) -> Seq<u64> {
        self.digits@
    }
}

/// The low 64 bits of a double-width intermediate.
fn low_limb(v: u128) -> (r: u64)
    ensures
        r as nat == v as nat % base(),
{
    assert(v as u64 == v % 0x1_0000_0000_0000_0000) by (bit_vector);
    v as u64
}

/// What of a double-width intermediate lies above the low 64 bits.
fn high_part(v: u128) -> (r: u128)
    ensures
        r as nat == v as nat / base(),
{
    assert(v >> 64 == v / 0x1_0000_0000_0000_0000) by (bit_vector);
    v >> 64
}

/// A remainder moved up by one limb, to take the next limb below it.
fn shift_limb(rem: u128) -> (r: u128)
    requires
        rem < base(),
    ensures
        r as nat == rem as nat * base(),
{
    assert(rem < 0x1_0000_0000_0000_0000 ==> (rem << 64) == rem * 0x1_0000_0000_0000_0000)
        by (bit_vector);
    rem << 64
}

/// The bitwise complement of a limb.
fn complement(r: u64) -> (c: u64)
    ensures
        c as nat == base() - 1 - r as nat,
{
    assert(!r == 0xffff_ffff_ffff_ffffu64 - r) by (bit_vector);
    !r
}

/// The index of the first non-zero limb at or after `from`, or the length
/// where there is none.
fn first_nonzero(d: &Vec<u64>, from: usize) -> (z: usize)
    requires
        zero_prefix(d@, from as int),
    ensures
        z == leading_zero_count(d@),
        zero_prefix(d@, z as int),
        from <= z,
{
    let n: usize = d.len();
    let mut i: usize = from;
    while i < n && d[i] == 0
        invariant
            from <= i <= n,
            n == d@.len(),
            zero_prefix(d@, i as int),
        decreases n - i,
    {
        i += 1;
    }
    proof {
        lemma_zero_prefix_is_count(d@, i as int);
    }
    i
}

/// One step of a long division by a single limb: the remainder so far takes
/// the next limb and yields the next quotient limb.
proof fn lemma_div_step(
    hi_src: nat,
    hi_quot: nat,
    rem: nat,
    limb: nat,
    d: nat,
    quot: nat,
    rem2: nat,
)
    requires
        d > 0,
        rem < d,
        limb < base(),
        hi_src == hi_quot * d + rem,
        quot == (rem * base() + limb) / d,
        rem2 == (rem * base() + limb) % d,
    ensures
        quot < base(),
        rem2 < d,
        hi_src * base() + limb == (hi_quot * base() + quot) * d + rem2,
{
    let num = rem * base() + limb;
    lemma_fundamental_div_mod(num as int, d as int);
    lemma_mod_bound(num as int, d as int);
    assert(num < d * base()) by (nonlinear_arith)
        requires
            num == rem * base() + limb,
            rem + 1 <= d,
            limb < base(),
    ;
    assert(quot < base()) by (nonlinear_arith)
        requires
            num == d * quot + rem2,
            num < d * base(),
            d > 0,
    ;
    assert(hi_src * base() + limb == (hi_quot * base() + quot) * d + rem2) by (nonlinear_arith)
        requires
            hi_src == hi_quot * d + rem,
            rem * base() + limb == d * quot + rem2,
    ;
}

/// One step of a ripple from the least significant limb: the limb's own
/// contribution `t` and the carry so far give the new limb and the next carry.
proof fn lemma_ripple_step(
    lo_new: int,
    carry: int,
    m: int,
    target: int,
    t: int,
    limb: int,
    carry2: int,
)
    requires
        lo_new + carry * m == target,
        0 <= carry + t,
        limb == (carry + t) % (base() as int),
        carry2 == (carry + t) / (base() as int),
    ensures
        limb * m + lo_new + carry2 * (m * base()) == t * m + target,
{
    let res = carry + t;
    lemma_fundamental_div_mod(res, base() as int);
    assert(limb * m + carry2 * (m * base()) == res * m) by (nonlinear_arith)
        requires
            res == base() * carry2 + limb,
    ;
    assert(res * m == carry * m + t * m) by (nonlinear_arith)
        requires
            res == carry + t,
    ;
}

/// A value that exceeds the range of `n` limbs by a whole number of wraps.
proof fn lemma_wrap_carry(v: nat, carry: int, total: int, n: nat)
    requires
        v < modulus(n),
        v + carry * modulus(n) == total,
    ensures
        wrap(total, n) == v,
{
    let m = modulus(n) as int;
    lemma_mod_multiples_vanish(carry, v as int, m);
    lemma_small_mod(v, modulus(n));
    assert(m * carry + v == total) by (nonlinear_arith)
        requires
            v + carry * m == total,
    ;
}

impl Number {
    /// The cache is sound: the limbs that it covers are zero.
    #[verifier::type_invariant]
    spec fn inv(self) -> bool {
        zero_prefix(self.digits@, self.zeros as int)
    }

    /// The number of leading limbs that the cache holds to be zero.
    pub closed spec fn cached_zeros(&self) -> nat {
        self.zeros as nat
    }

    /// The numerator of the fraction: the limbs read as one number.
    pub open spec fn value(&self) -> nat {
        limbs_value(self@)
    }

    /// The cache counts every leading zero limb.
    pub open spec fn zeros_exact(&self) -> bool {
        self.cached_zeros() == leading_zero_count(self@)
    }

    /// Takes the limbs out for rewriting, leaving no limbs behind.
    fn take_digits(&mut self) -> (d: Vec<u64>)
        ensures
            d@ == old(self)@,
            zero_prefix(d@, old(self).cached_zeros() as int),
    {
        proof {
            use_type_invariant(&*self);
        }
        self.zeros = 0;
        let mut d: Vec<u64> = Vec::new();
        std::mem::swap(&mut self.digits, &mut d);
        d
    }

    /// Puts rewritten limbs back, with a count of their leading zeros.
    fn put_digits(&mut self, d: Vec<u64>, z: usize)
        requires
            zero_prefix(d@, z as int),
        ensures
            final(self)@ == d@,
            final(self).cached_zeros() == z,
    {
        self.zeros = 0;
        self.digits = d;
        self.zeros = z;
    }

    /// The fraction zero, in `n` limbs.
    pub fn zero(n: usize) -> (r: Number)
        ensures
            r@.len() == n,
            r.value() == 0,
            r.cached_zeros() == n,
            r.zeros_exact(),
    {
        let mut d: Vec<u64> = Vec::new();
        let mut i: usize = 0;
        while i < n
            invariant
                i <= n,
                d@.len() == i,
                zero_prefix(d@, i as int),
            decreases n - i,
        {
            d.push(0);
            i += 1;
        }
        proof {
            lemma_zero_limbs_value(d@);
            lemma_zero_prefix_is_count(d@, n as int);
        }
        Number { zeros: n, digits: d }
    }

    /// A fraction from its limbs, most significant first.
    pub fn from_limbs(limbs: Vec<u64>) -> (r: Number)
        ensures
            r@ == limbs@,
            r.zeros_exact(),
    {
        let z: usize = first_nonzero(&limbs, 0);
        Number { zeros: z, digits: limbs }
    }

    /// The limbs, most significant first.
    pub fn limbs(&self) -> (r: &Vec<u64>)
        ensures
            r@ == self@,
    {
        &self.digits
    }

    /// The number of limbs.
    pub fn len(&self) -> (n: usize)
        ensures
            n == self@.len(),
    {
        self.digits.len()
    }

    /// The cached count of leading zero limbs. It never exceeds the number of
    /// leading limbs that are in fact zero.
    pub fn leading_zeros(&self) -> (z: usize)
        ensures
            z == self.cached_zeros(),
            z <= leading_zero_count(self@),
            z <= self@.len(),
    {
        proof {
            use_type_invariant(self);
            lemma_zero_prefix_le_count(self@, self.zeros as int);
        }
        self.zeros
    }

    /// Recounts the leading zero limbs, given that the first `min` limbs are
    /// zero.
    pub fn update_zeros_min(&mut self, min: usize)
        requires
            zero_prefix(old(self)@, min as int),
        ensures
            final(self)@ == old(self)@,
            final(self).zeros_exact(),
    {
        self.zeros = first_nonzero(&self.digits, min);
    }

    /// Recounts the leading zero limbs.
    pub fn update_zeros(&mut self)
        ensures
            final(self)@ == old(self)@,
            final(self).zeros_exact(),
    {
        self.update_zeros_min(0);
    }

    /// Whether the cache holds every limb to be zero. With an exact cache,
    /// which every operation of this type leaves behind, this is whether the
    /// fraction is zero.
    pub fn is_zero(&self) -> (r: bool)
        ensures
            r == (self.cached_zeros() == self@.len()),
            r ==> self.value() == 0,
            self.zeros_exact() ==> (r <==> self.value() == 0),
    {
        proof {
            use_type_invariant(self);
            lemma_value_zero_iff(self@);
            lemma_zero_prefix_le_count(self@, self.zeros as int);
            lemma_leading_zero_count(self@);
        }
        self.zeros == self.digits.len()
    }

    /// Overwrites this fraction with `rhs`, limb by limb.
    pub fn copy_from(&mut self, rhs: &Number)
        requires
            old(self)@.len() == rhs@.len(),
        ensures
            final(self)@ == rhs@,
            final(self).cached_zeros() == rhs.cached_zeros(),
    {
        proof {
            use_type_invariant(rhs);
        }
        let n: usize = rhs.digits.len();
        let mut d: Vec<u64> = self.take_digits();
        let mut i: usize = 0;
        while i < n
            invariant
                i <= n,
                n == rhs.digits@.len(),
                d@.len() == n,
                forall|k: int| 0 <= k < i ==> d@[k] == rhs.digits@[k],
            decreases n - i,
        {
            d.set(i, rhs.digits[i]);
            i += 1;
        }
        assert(d@ =~= rhs.digits@);
        self.put_digits(d, rhs.zeros);
    }

    /// The reciprocal of `x`, rounded down to the last limb. The reciprocal of
    /// 1 is 1.0, which wraps to zero.
    pub fn from_inv(x: u64, n: usize) -> (r: Number)
        requires
            x > 0,
        ensures
            r@.len() == n,
            r.value() == reciprocal_power(x as nat, n as nat, 1),
            r.value() == wrap(modulus(n as nat) as int / x as int, n as nat),
            x >= 2 ==> r.value() == modulus(n as nat) / (x as nat),
            x >= 2 && n >= 1 ==> r.value() > 0,
            r.zeros_exact(),
    {
        let xx: u128 = x as u128;
        let mut rem: u128 = 1;
        let mut d: Vec<u64> = Vec::new();
        let mut i: usize = 0;
        proof {
            lemma_modulus_zero();
            assert(limbs_value(d@) == 0);
            assert(limbs_value(d@) * (x as nat) == 0) by (nonlinear_arith)
                requires
                    limbs_value(d@) == 0,
            ;
        }
        while i < n
            invariant
                i <= n,
                d@.len() == i,
                xx == x,
                x > 0,
                x >= 2 ==> rem < xx,
                x == 1 ==> rem <= 1,
                x >= 2 ==> modulus(i as nat) == limbs_value(d@) * (x as nat) + rem as nat,
                x == 1 ==> zero_prefix(d@, i as int),
            decreases n - i,
        {
            let nom: u128 = shift_limb(rem);
            let quot: u128 = nom / xx;
            let limb: u64 = low_limb(quot);
            let rem2: u128 = nom % xx;
            proof {
                if x >= 2 {
                    lemma_div_step(
                        modulus(i as nat),
                        limbs_value(d@),
                        rem as nat,
                        0,
                        x as nat,
                        quot as nat,
                        rem2 as nat,
                    );
                    lemma_modulus_step(i as nat);
                    lemma_small_mod(quot as nat, base());
                }
                crate::limbs::lemma_value_push(d@, limb);
            }
            d.push(limb);
            rem = rem2;
            i += 1;
        }
        let z: usize = first_nonzero(&d, 0);
        proof {
            let m = modulus(n as nat);
            lemma_modulus_positive(n as nat);
            vstd::arithmetic::power::lemma_pow1(x as int);
            if x >= 2 {
                lemma_fundamental_div_mod_converse(
                    m as int,
                    x as int,
                    limbs_value(d@) as int,
                    rem as int,
                );
                lemma_value_bound(d@);
                lemma_small_mod(limbs_value(d@), m);
                if n >= 1 {
                    lemma_modulus_step((n - 1) as nat);
                    lemma_modulus_positive((n - 1) as nat);
                    assert(m >= base()) by (nonlinear_arith)
                        requires
                            m == modulus((n - 1) as nat) * base(),
                            modulus((n - 1) as nat) >= 1,
                    ;
                    lemma_div_non_zero(m as int, x as int);
                }
            } else {
                lemma_zero_limbs_value(d@);
                lemma_mod_self_0(m as int);
            }
        }
        Number { zeros: z, digits: d }
    }

    /// Sets this fraction to `x / d`, rounded down to the last limb.
    ///
    /// Only the limbs from the first one of `x` that may be non-zero are
    /// divided; those above it are cleared where they are not known to be
    /// clear already.
    pub fn set_to_div(&mut self, x: &Number, d: u64)
        requires
            d > 0,
            old(self)@.len() == x@.len(),
        ensures
            final(self)@.len() == x@.len(),
            final(self).value() == x.value() / (d as nat),
            final(self).zeros_exact(),
    {
        proof {
            use_type_invariant(x);
        }
        let n: usize = x.digits.len();
        let own_zeros: usize = self.zeros;
        let mut q: Vec<u64> = self.take_digits();
        let mut i: usize = own_zeros;
        while i < x.zeros
            invariant
                own_zeros <= i,
                q@.len() == n,
                x.zeros <= n,
                zero_prefix(q@, i as int),
            decreases x.zeros - i,
        {
            q.set(i, 0);
            i += 1;
        }
        let dd: u128 = d as u128;
        let mut rem: u128 = 0;
        let mut j: usize = x.zeros;
        proof {
            lemma_zero_prefix_value(x.digits@, j as int);
            lemma_zero_prefix_value(q@, j as int);
            assert(limbs_value(q@.take(j as int)) * (d as nat) == 0) by (nonlinear_arith)
                requires
                    limbs_value(q@.take(j as int)) == 0,
            ;
        }
        while j < n
            invariant
                x.zeros <= j <= n,
                n == x.digits@.len(),
                q@.len() == n,
                dd == d,
                d > 0,
                rem < dd,
                zero_prefix(q@, x.zeros as int),
                limbs_value(x.digits@.take(j as int)) == limbs_value(q@.take(j as int)) * (
                d as nat) + rem as nat,
            decreases n - j,
        {
            let limb: u64 = x.digits[j];
            let num: u128 = shift_limb(rem) + limb as u128;
            let quot: u128 = num / dd;
            let rem2: u128 = num % dd;
            let ghost q_before = q@;
            proof {
                lemma_div_step(
                    limbs_value(x.digits@.take(j as int)),
                    limbs_value(q@.take(j as int)),
                    rem as nat,
                    limb as nat,
                    d as nat,
                    quot as nat,
                    rem2 as nat,
                );
                lemma_value_take_step(x.digits@, j as int);
            }
            q.set(j, quot as u64);
            proof {
                assert(q@.take(j as int) =~= q_before.take(j as int));
                lemma_value_take_step(q@, j as int);
            }
            rem = rem2;
            j += 1;
        }
        proof {
            assert(x.digits@.take(n as int) =~= x.digits@);
            assert(q@.take(n as int) =~= q@);
            lemma_fundamental_div_mod_converse(
                limbs_value(x.digits@) as int,
                d as int,
                limbs_value(q@) as int,
                rem as int,
            );
        }
        let z: usize = first_nonzero(&q, x.zeros);
        self.put_digits(q, z);
    }

    /// Divides this fraction by `d` in place, rounding down to the last limb.
    pub fn div_assign(&mut self, d: u64)
        requires
            d > 0,
        ensures
            final(self)@.len() == old(self)@.len(),
            final(self).value() == old(self).value() / (d as nat),
            final(self).zeros_exact(),
    {
        let own_zeros: usize = self.zeros;
        let mut q: Vec<u64> = self.take_digits();
        let ghost src = q@;
        let n: usize = q.len();
        let dd: u128 = d as u128;
        let mut rem: u128 = 0;
        let mut j: usize = own_zeros;
        proof {
            lemma_zero_prefix_value(src, j as int);
            assert(limbs_value(q@.take(j as int)) * (d as nat) == 0) by (nonlinear_arith)
                requires
                    limbs_value(q@.take(j as int)) == 0,
            ;
        }
        while j < n
            invariant
                own_zeros <= j <= n,
                n == src.len(),
                q@.len() == n,
                dd == d,
                d > 0,
                rem < dd,
                zero_prefix(q@, own_zeros as int),
                forall|k: int| j <= k < n ==> q@[k] == src[k],
                limbs_value(src.take(j as int)) == limbs_value(q@.take(j as int)) * (d as nat)
                    + rem as nat,
            decreases n - j,
        {
            let limb: u64 = q[j];
            let num: u128 = shift_limb(rem) + limb as u128;
            let quot: u128 = num / dd;
            let rem2: u128 = num % dd;
            let ghost q_before = q@;
            proof {
                lemma_div_step(
                    limbs_value(src.take(j as int)),
                    limbs_value(q@.take(j as int)),
                    rem as nat,
                    limb as nat,
                    d as nat,
                    quot as nat,
                    rem2 as nat,
                );
                lemma_value_take_step(src, j as int);
            }
            q.set(j, quot as u64);
            proof {
                assert(q@.take(j as int) =~= q_before.take(j as int));
                lemma_value_take_step(q@, j as int);
            }
            rem = rem2;
            j += 1;
        }
        proof {
            assert(src.take(n as int) =~= src);
            assert(q@.take(n as int) =~= q@);
            lemma_fundamental_div_mod_converse(
                limbs_value(src) as int,
                d as int,
                limbs_value(q@) as int,
                rem as int,
            );
        }
        let z: usize = first_nonzero(&q, own_zeros);
        self.put_digits(q, z);
    }

    /// Adds `rhs` to this fraction, wrapping around at 1.
    ///
    /// The ripple starts at the least significant limb and stops above the
    /// leading zeros of `rhs` as soon as no carry is left to hand up.
    pub fn add_assign(&mut self, rhs: &Number)
        requires
            old(self)@.len() == rhs@.len(),
        ensures
            final(self)@.len() == old(self)@.len(),
            final(self).value() == wrap((old(self).value() + rhs.value()) as int, rhs@.len()),
            final(self).zeros_exact(),
    {
        proof {
            use_type_invariant(rhs);
        }
        let n: usize = rhs.digits.len();
        let own_zeros: usize = self.zeros;
        let low: usize = if own_zeros < rhs.zeros {
            own_zeros
        } else {
            rhs.zeros
        };
        let mut d: Vec<u64> = self.take_digits();
        let ghost a0 = d@;
        let ghost r = rhs.digits@;
        let mut carry: u128 = 0;
        let mut i: usize = n;
        proof {
            lemma_modulus_zero();
            assert(d@.skip(n as int) =~= Seq::<u64>::empty());
            assert(r.skip(n as int) =~= Seq::<u64>::empty());
        }
        while i > 0 && (i > rhs.zeros || carry != 0)
            invariant
                i <= n,
                d@.len() == n,
                a0.len() == n,
                r == rhs.digits@,
                r.len() == n,
                carry <= 1,
                low <= own_zeros,
                low <= rhs.zeros,
                zero_prefix(a0, own_zeros as int),
                zero_prefix(r, rhs.zeros as int),
                forall|k: int| 0 <= k < i ==> d@[k] == a0[k],
                limbs_value(d@.skip(i as int)) + carry * modulus((n - i) as nat) == limbs_value(
                    a0.skip(i as int),
                ) + limbs_value(r.skip(i as int)),
                i < low ==> carry == 0,
                i + 1 >= low,
            decreases i,
        {
            let ghost d_before = d@;
            let ghost carry_before = carry as int;
            i -= 1;
            let res: u128 = carry + d[i] as u128 + rhs.digits[i] as u128;
            let limb: u64 = low_limb(res);
            d.set(i, limb);
            carry = high_part(res);
            proof {
                let m = modulus((n - i - 1) as nat) as int;
                lemma_value_skip_step(a0, i + 1);
                lemma_value_skip_step(r, i + 1);
                lemma_value_skip_step(d@, i + 1);
                assert(d@.skip(i + 1) =~= d_before.skip(i + 1));
                lemma_modulus_step((n - i - 1) as nat);
                let t = a0[i as int] as int + r[i as int] as int;
                let target = limbs_value(a0.skip(i + 1)) + limbs_value(r.skip(i + 1));
                lemma_ripple_step(
                    limbs_value(d_before.skip(i + 1)) as int,
                    carry_before,
                    m,
                    target as int,
                    t,
                    limb as int,
                    carry as int,
                );
                assert(t * m == a0[i as int] as int * m + r[i as int] as int * m)
                    by (nonlinear_arith)
                    requires
                        t == a0[i as int] as int + r[i as int] as int,
                ;
            }
        }
        proof {
            let total = limbs_value(a0) + limbs_value(r);
            lemma_value_bound(d@);
            if i == 0 {
                assert(d@.skip(0) =~= d@);
                assert(a0.skip(0) =~= a0);
                assert(r.skip(0) =~= r);
                lemma_wrap_carry(limbs_value(d@), carry as int, total as int, n as nat);
            } else {
                lemma_zero_prefix_value(r, i as int);
                lemma_value_split(d@, i as int);
                lemma_value_split(a0, i as int);
                assert(d@.take(i as int) =~= a0.take(i as int));
                lemma_wrap_carry(limbs_value(d@), 0, total as int, n as nat);
            }
        }
        let from: usize = if low > 0 {
            low - 1
        } else {
            0
        };
        assert forall|k: int| 0 <= k < from implies d@[k] == 0 by {
            assert(d@[k] == a0[k]);
        }
        let z: usize = first_nonzero(&d, from);
        self.put_digits(d, z);
    }

    /// Subtracts `rhs` from this fraction, wrapping around at 0.
    ///
    /// The complement of `rhs` is added with a carry of one. Above the leading
    /// zeros of `rhs` the ripple stops as soon as no borrow is pending, and
    /// the limbs above that point are left as they were.
    pub fn sub_assign(&mut self, rhs: &Number)
        requires
            old(self)@.len() == rhs@.len(),
        ensures
            final(self)@.len() == old(self)@.len(),
            final(self).value() == wrap(old(self).value() - rhs.value(), rhs@.len()),
            final(self).zeros_exact(),
    {
        proof {
            use_type_invariant(rhs);
        }
        let n: usize = rhs.digits.len();
        let own_zeros: usize = self.zeros;
        let mut d: Vec<u64> = self.take_digits();
        let ghost a0 = d@;
        let ghost r = rhs.digits@;
        let mut carry: u128 = 1;
        let mut i: usize = n;
        proof {
            lemma_modulus_zero();
            assert(d@.skip(n as int) =~= Seq::<u64>::empty());
            assert(r.skip(n as int) =~= Seq::<u64>::empty());
        }
        while i > 0 && (i > rhs.zeros || carry != 1)
            invariant
                i <= n,
                d@.len() == n,
                a0.len() == n,
                r == rhs.digits@,
                r.len() == n,
                carry <= 1,
                zero_prefix(a0, own_zeros as int),
                zero_prefix(r, rhs.zeros as int),
                forall|k: int| 0 <= k < i ==> d@[k] == a0[k],
                limbs_value(d@.skip(i as int)) + carry * modulus((n - i) as nat) == limbs_value(
                    a0.skip(i as int),
                ) - limbs_value(r.skip(i as int)) + modulus((n - i) as nat),
            decreases i,
        {
            let ghost d_before = d@;
            let ghost carry_before = carry as int;
            i -= 1;
            let res: u128 = carry + d[i] as u128 + complement(rhs.digits[i]) as u128;
            let limb: u64 = low_limb(res);
            d.set(i, limb);
            carry = high_part(res);
            proof {
                let m = modulus((n - i - 1) as nat) as int;
                lemma_value_skip_step(a0, i + 1);
                lemma_value_skip_step(r, i + 1);
                lemma_value_skip_step(d@, i + 1);
                assert(d@.skip(i + 1) =~= d_before.skip(i + 1));
                lemma_modulus_step((n - i - 1) as nat);
                let t = a0[i as int] as int + base() as int - 1 - r[i as int] as int;
                let target = limbs_value(a0.skip(i + 1)) - limbs_value(r.skip(i + 1)) + m;
                lemma_ripple_step(
                    limbs_value(d_before.skip(i + 1)) as int,
                    carry_before,
                    m,
                    target,
                    t,
                    limb as int,
                    carry as int,
                );
                assert(t * m == a0[i as int] as int * m + base() as int * m - m - r[i as int] as int
                    * m) by (nonlinear_arith)
                    requires
                        t == a0[i as int] as int + base() as int - 1 - r[i as int] as int,
                ;
                assert(base() as int * m == m * base()) by (nonlinear_arith);
            }
        }
        proof {
            let total = limbs_value(a0) - limbs_value(r);
            lemma_value_bound(d@);
            if i == 0 {
                assert(d@.skip(0) =~= d@);
                assert(a0.skip(0) =~= a0);
                assert(r.skip(0) =~= r);
                let m = modulus(n as nat) as int;
                assert((carry as int - 1) * m == carry * m - m) by (nonlinear_arith);
                lemma_wrap_carry(limbs_value(d@), carry as int - 1, total, n as nat);
            } else {
                lemma_zero_prefix_value(r, i as int);
                lemma_value_split(d@, i as int);
                lemma_value_split(a0, i as int);
                assert(d@.take(i as int) =~= a0.take(i as int));
                lemma_wrap_carry(limbs_value(d@), 0, total, n as nat);
            }
        }
        let from: usize = if own_zeros < i {
            own_zeros
        } else {
            i
        };
        assert forall|k: int| 0 <= k < from implies d@[k] == 0 by {
            assert(d@[k] == a0[k]);
        }
        let z: usize = first_nonzero(&d, from);
        self.put_digits(d, z);
    }

    /// Multiplies this fraction by 4, wrapping around at 1: the integer part
    /// of the product is dropped.
    pub fn mul4(&mut self)
        ensures
            final(self)@.len() == old(self)@.len(),
            final(self).value() == wrap(4 * old(self).value() as int, old(self)@.len()),
            final(self).zeros_exact(),
    {
        let mut d: Vec<u64> = self.take_digits();
        let ghost a0 = d@;
        let n: usize = d.len();
        let mut carry: u128 = 0;
        let mut i: usize = n;
        proof {
            lemma_modulus_zero();
            assert(d@.skip(n as int) =~= Seq::<u64>::empty());
        }
        while i > 0
            invariant
                i <= n,
                d@.len() == n,
                a0.len() == n,
                carry <= 3,
                forall|k: int| 0 <= k < i ==> d@[k] == a0[k],
                limbs_value(d@.skip(i as int)) + carry * modulus((n - i) as nat) == 4 * limbs_value(
                    a0.skip(i as int),
                ),
            decreases i,
        {
            let ghost d_before = d@;
            let ghost carry_before = carry as int;
            i -= 1;
            carry += 4 * (d[i] as u128);
            let limb: u64 = low_limb(carry);
            d.set(i, limb);
            let ghost res = carry as int;
            carry = high_part(carry);
            proof {
                let m = modulus((n - i - 1) as nat) as int;
                lemma_value_skip_step(a0, i + 1);
                lemma_value_skip_step(d@, i + 1);
                assert(d@.skip(i + 1) =~= d_before.skip(i + 1));
                lemma_modulus_step((n - i - 1) as nat);
                let t = 4 * a0[i as int] as int;
                lemma_ripple_step(
                    limbs_value(d_before.skip(i + 1)) as int,
                    carry_before,
                    m,
                    4 * limbs_value(a0.skip(i + 1)) as int,
                    t,
                    limb as int,
                    carry as int,
                );
                assert(t * m == 4 * (a0[i as int] as int * m)) by (nonlinear_arith)
                    requires
                        t == 4 * a0[i as int] as int,
                ;
            }
        }
        proof {
            assert(d@.skip(0) =~= d@);
            assert(a0.skip(0) =~= a0);
            lemma_value_bound(d@);
            lemma_wrap_carry(limbs_value(d@), carry as int, 4 * limbs_value(a0) as int, n as nat);
        }
        let z: usize = first_nonzero(&d, 0);
        self.put_digits(d, z);
    }
}

impl Clone for Number {
    /// A copy with the same limbs and the same cache.
    fn clone(&self) -> (r: Number)
        ensures
            r@ == self@,
            r.cached_zeros() == self.cached_zeros(),
    {
        proof {
            use_type_invariant(self);
        }
        let d: Vec<u64> = self.digits.clone();
        assert(d@ =~= self.digits@);
        Number { zeros: self.zeros, digits: d }
    }
}

} // verus!
