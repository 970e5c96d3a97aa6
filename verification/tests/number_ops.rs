use picalc::number::Number;

fn a() -> Number {
    Number::from_limbs(vec![0x0123456789abcdef, 0xfedcba9876543210, 0x0f1e2d3c4b5a6978])
}

fn r() -> Number {
    Number::from_limbs(vec![0x0000000000000000, 0x00000000deadbeef, 0xffffffffffffffff])
}

fn big() -> Number {
    Number::from_limbs(vec![0xc000000000000000, 0x8000000000000001, 0xffffffffffffffff])
}

/// The number of limbs at the most significant end that are zero.
fn true_leading_zeros(n: &Number) -> usize {
    n.limbs().iter().take_while(|&&limb| limb == 0).count()
}

fn assert_cache_exact(n: &Number) {
    assert!(n.leading_zeros() <= true_leading_zeros(n));
    assert_eq!(n.leading_zeros(), true_leading_zeros(n));
    assert_eq!(n.is_zero(), n.limbs().iter().all(|&limb| limb == 0));
}

#[test]
fn zero_is_zero() {
    let z = Number::zero(4);
    assert!(z.is_zero());
    assert_eq!(z.len(), 4);
    assert_eq!(z.leading_zeros(), 4);
    assert_eq!(z.limbs(), &vec![0u64; 4]);
    assert!(Number::zero(0).is_zero());
}

#[test]
fn from_limbs_counts_leading_zeros() {
    assert_eq!(r().leading_zeros(), 1);
    assert_eq!(a().leading_zeros(), 0);
    assert_eq!(Number::from_limbs(vec![0, 0, 0]).leading_zeros(), 3);
    assert_eq!(Number::from_limbs(vec![]).leading_zeros(), 0);
    assert_eq!(Number::from_limbs(vec![0, 0, 1]).leading_zeros(), 2);
}

#[test]
fn reciprocal_of_three() {
    let x = Number::from_inv(3, 3);
    assert_eq!(x.limbs(), &vec![0x5555_5555_5555_5555u64; 3]);
    assert!(!x.is_zero());
    assert_eq!(x.leading_zeros(), 0);
}

#[test]
fn reciprocals_are_rounded_down() {
    assert_eq!(
        Number::from_inv(7, 3).limbs(),
        &vec![0x2492492492492492u64, 0x4924924924924924, 0x9249249249249249]
    );
    assert_eq!(
        Number::from_inv(239, 2).limbs(),
        &vec![0x0112358e75d30336u64, 0xa0ab617909a3e202]
    );
    assert_eq!(Number::from_inv(u64::MAX, 2).limbs(), &vec![1u64, 1]);
    assert_eq!(Number::from_inv(2, 1).limbs(), &vec![0x8000000000000000u64]);
}

#[test]
fn reciprocal_of_one_wraps_to_zero() {
    let x = Number::from_inv(1, 3);
    assert!(x.is_zero());
    assert_eq!(x.limbs(), &vec![0u64; 3]);
}

#[test]
fn reciprocal_is_never_zero_from_two_on() {
    for &x in &[2u64, 3, 5, 239, 65536, u64::MAX] {
        for n in 1..4 {
            assert!(!Number::from_inv(x, n).is_zero());
        }
    }
    assert!(Number::from_inv(5, 0).is_zero());
}

#[test]
fn reciprocal_times_x_by_repeated_addition_falls_short_by_less_than_x_units() {
    for &x in &[2u64, 3, 5, 7, 10, 239, 1000] {
        let n = 3;
        let recip = Number::from_inv(x, n);
        let mut product = Number::zero(n);
        for _ in 0..x {
            product.add_assign(&recip);
        }
        // 1.0 - product, as a fraction: zero when the product wrapped to 1.0 exactly
        let mut gap = Number::zero(n);
        gap.sub_assign(&product);
        assert!(gap.limbs()[0] == 0 && gap.limbs()[1] == 0);
        assert!(gap.limbs()[2] < x);
    }
    let mut product = Number::zero(3);
    let seventh = Number::from_inv(7, 3);
    for _ in 0..7 {
        product.add_assign(&seventh);
    }
    assert_eq!(product.limbs(), &vec![u64::MAX; 3]);
}

#[test]
fn add_carries_past_leading_zeros_of_rhs() {
    let mut x = Number::from_limbs(vec![0x8000_0000_0000_0000, 0xffff_ffff_ffff_ffff]);
    let y = Number::from_limbs(vec![0, 1]);
    x.add_assign(&y);
    assert_eq!(x.limbs(), &vec![0x8000_0000_0000_0001u64, 0]);
    x.sub_assign(&y);
    assert_eq!(x.limbs(), &vec![0x8000_0000_0000_0000u64, 0xffff_ffff_ffff_ffff]);
}

#[test]
fn add_carries_through_a_run_of_full_limbs() {
    let mut x = Number::from_limbs(vec![0, 7, u64::MAX, u64::MAX, u64::MAX]);
    let y = Number::from_limbs(vec![0, 0, 0, 0, 1]);
    x.add_assign(&y);
    assert_eq!(x.limbs(), &vec![0u64, 8, 0, 0, 0]);
    assert_cache_exact(&x);
}

#[test]
fn add_into_a_limb_that_was_zero() {
    let mut x = Number::from_limbs(vec![0, 0, u64::MAX, 5]);
    let y = Number::from_limbs(vec![0, 0, 1, 0]);
    x.add_assign(&y);
    assert_eq!(x.limbs(), &vec![0u64, 1, 0, 5]);
    assert_eq!(x.leading_zeros(), 1);
}

#[test]
fn add_wraps_around_at_one() {
    let mut x = big();
    x.add_assign(&big());
    assert_eq!(
        x.limbs(),
        &vec![0x8000000000000001u64, 0x0000000000000003, 0xfffffffffffffffe]
    );
    let mut top = Number::from_limbs(vec![u64::MAX, u64::MAX]);
    top.add_assign(&Number::from_limbs(vec![0, 1]));
    assert!(top.is_zero());
    assert_cache_exact(&top);
}

#[test]
fn add_and_sub_exact_values() {
    let mut x = a();
    x.add_assign(&r());
    assert_eq!(
        x.limbs(),
        &vec![0x0123456789abcdefu64, 0xfedcba995501f100, 0x0f1e2d3c4b5a6977]
    );
    let mut y = a();
    y.sub_assign(&r());
    assert_eq!(
        y.limbs(),
        &vec![0x0123456789abcdefu64, 0xfedcba9797a67320, 0x0f1e2d3c4b5a6979]
    );
}

#[test]
fn sub_wraps_around_at_zero() {
    let mut x = r();
    x.sub_assign(&a());
    assert_eq!(
        x.limbs(),
        &vec![0xfedcba9876543210u64, 0x0123456868598cdf, 0xf0e1d2c3b4a59687]
    );
    assert_cache_exact(&x);
    let mut z = Number::zero(2);
    z.sub_assign(&Number::from_limbs(vec![0, 1]));
    assert_eq!(z.limbs(), &vec![u64::MAX, u64::MAX]);
    assert_eq!(z.leading_zeros(), 0);
}

#[test]
fn sub_borrows_above_the_leading_zeros_of_rhs() {
    let mut x = Number::from_limbs(vec![5, 0, 0, 3]);
    let y = Number::from_limbs(vec![0, 0, 0, 4]);
    x.sub_assign(&y);
    assert_eq!(x.limbs(), &vec![4u64, u64::MAX, u64::MAX, u64::MAX]);
    assert_cache_exact(&x);
}

#[test]
fn sub_leaves_limbs_above_a_settled_borrow() {
    let mut x = Number::from_limbs(vec![0, 9, 8, 7]);
    let y = Number::from_limbs(vec![0, 0, 0, 7]);
    x.sub_assign(&y);
    assert_eq!(x.limbs(), &vec![0u64, 9, 8, 0]);
    assert_eq!(x.leading_zeros(), 1);
}

#[test]
fn sub_of_itself_is_zero() {
    let mut x = a();
    x.sub_assign(&a());
    assert!(x.is_zero());
    assert_cache_exact(&x);
    let mut y = r();
    y.sub_assign(&r());
    assert!(y.is_zero());
    assert_eq!(y.leading_zeros(), 3);
}

#[test]
fn add_then_sub_restores_every_limb() {
    let values = [a(), r(), big(), Number::zero(3), Number::from_inv(3, 3)];
    for x in values.iter() {
        for y in values.iter() {
            let mut z = x.clone();
            z.add_assign(y);
            assert_cache_exact(&z);
            z.sub_assign(y);
            assert_cache_exact(&z);
            assert_eq!(z.limbs(), x.limbs());
            assert_eq!(z.leading_zeros(), x.leading_zeros());
            z.sub_assign(y);
            z.add_assign(y);
            assert_eq!(z.limbs(), x.limbs());
        }
    }
}

#[test]
fn mul4_scales_and_drops_the_integer_part() {
    let mut x = a();
    x.mul4();
    assert_eq!(
        x.limbs(),
        &vec![0x048d159e26af37bfu64, 0xfb72ea61d950c840, 0x3c78b4f12d69a5e0]
    );
    let mut y = big();
    y.mul4();
    assert_eq!(
        y.limbs(),
        &vec![0x0000000000000002u64, 0x0000000000000007, 0xfffffffffffffffc]
    );
    assert_cache_exact(&y);
    let mut quarter = Number::from_limbs(vec![0x4000000000000000, 0]);
    quarter.mul4();
    assert!(quarter.is_zero());
    let mut z = Number::from_limbs(vec![0, 0, 0x4000000000000000]);
    z.mul4();
    assert_eq!(z.limbs(), &vec![0u64, 1, 0]);
    assert_eq!(z.leading_zeros(), 1);
}

#[test]
fn div_assign_rounds_down() {
    let mut x = a();
    x.div_assign(7);
    assert_eq!(
        x.limbs(),
        &vec![0x00299c335ccf668fu64, 0xffd663cca3309970, 0x0228e1e40ac3c5ec]
    );
    let mut y = a();
    y.div_assign(u64::MAX);
    assert_eq!(y.limbs(), &vec![0u64, 0x0123456789abcdf0, 0]);
    assert_eq!(y.leading_zeros(), 1);
    let mut z = r();
    z.div_assign(1000003);
    assert_eq!(z.limbs(), &vec![0u64, 0x0000000000000e97, 0xead798cfd40ff580]);
    let mut one = a();
    one.div_assign(1);
    assert_eq!(one.limbs(), a().limbs());
}

#[test]
fn div_assign_underflows_to_zero() {
    let mut x = Number::from_limbs(vec![0, 0, 5]);
    x.div_assign(6);
    assert!(x.is_zero());
    assert_eq!(x.leading_zeros(), 3);
}

#[test]
fn set_to_div_clears_what_it_does_not_divide() {
    // the target has fewer leading zeros than the source
    let mut target = a();
    target.set_to_div(&r(), 1000003);
    assert_eq!(target.limbs(), &vec![0u64, 0x0000000000000e97, 0xead798cfd40ff580]);
    assert_cache_exact(&target);
    // and more of them
    let mut target = Number::zero(3);
    target.set_to_div(&a(), 7);
    assert_eq!(
        target.limbs(),
        &vec![0x00299c335ccf668fu64, 0xffd663cca3309970, 0x0228e1e40ac3c5ec]
    );
    assert_eq!(target.leading_zeros(), 0);
    let mut again = target.clone();
    again.set_to_div(&Number::zero(3), 9);
    assert!(again.is_zero());
}

#[test]
fn copy_from_copies_limbs_and_cache() {
    let mut x = a();
    x.copy_from(&r());
    assert_eq!(x.limbs(), r().limbs());
    assert_eq!(x.leading_zeros(), 1);
    x.copy_from(&Number::zero(3));
    assert!(x.is_zero());
}

#[test]
fn update_zeros_keeps_the_limbs() {
    let mut x = r();
    x.update_zeros();
    assert_eq!(x.limbs(), r().limbs());
    assert_eq!(x.leading_zeros(), 1);
    x.update_zeros_min(1);
    assert_eq!(x.leading_zeros(), 1);
    x.update_zeros_min(0);
    assert_eq!(x.leading_zeros(), 1);
    let mut z = Number::zero(2);
    z.update_zeros_min(2);
    assert!(z.is_zero());
}

#[test]
fn cache_of_leading_zeros_is_exact_after_every_operation() {
    let values = [
        a(),
        r(),
        big(),
        Number::zero(3),
        Number::from_inv(3, 3),
        Number::from_limbs(vec![0, 0, 1]),
        Number::from_limbs(vec![0, u64::MAX, u64::MAX]),
    ];
    for x in values.iter() {
        assert_cache_exact(x);
        let mut m = x.clone();
        m.mul4();
        assert_cache_exact(&m);
        for &d in &[1u64, 3, 1 << 40, u64::MAX] {
            let mut q = x.clone();
            q.div_assign(d);
            assert_cache_exact(&q);
            for y in values.iter() {
                let mut t = y.clone();
                t.set_to_div(x, d);
                assert_cache_exact(&t);
                assert_eq!(t.limbs(), q.limbs());
            }
        }
        for y in values.iter() {
            let mut s = x.clone();
            s.add_assign(y);
            assert_cache_exact(&s);
            let mut d = x.clone();
            d.sub_assign(y);
            assert_cache_exact(&d);
            let mut c = x.clone();
            c.copy_from(y);
            assert_cache_exact(&c);
        }
    }
}
