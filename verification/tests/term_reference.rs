use picalc::number::Number;
use picalc::reference::Reference;
use picalc::term::{jump_divisor, Term};

#[test]
fn jump_divisor_is_the_power_where_it_fits() {
    assert_eq!(jump_divisor(25, 0), Some(1));
    assert_eq!(jump_divisor(25, 1), Some(25));
    assert_eq!(jump_divisor(25, 3), Some(15625));
    assert_eq!(jump_divisor(57121, 4), Some(10645920227784266881));
    assert_eq!(jump_divisor(57121, 5), None);
    assert_eq!(jump_divisor(2, 63), Some(1 << 63));
    assert_eq!(jump_divisor(2, 64), None);
    assert_eq!(jump_divisor(1, u64::MAX), Some(1));
    assert_eq!(jump_divisor(0, 5), Some(0));
    assert_eq!(jump_divisor(0, 0), Some(1));
    assert_eq!(jump_divisor(u64::MAX, 1), Some(u64::MAX));
    assert_eq!(jump_divisor(u64::MAX, 2), None);
}

#[test]
fn term_starts_at_the_reciprocal() {
    let fifth = Number::from_inv(5, 3);
    let t = Term::init(5, &fifth);
    assert_eq!(t.base(), 5);
    assert_eq!(t.denom(), 1);
    assert_eq!(t.val().limbs(), fifth.limbs());
}

#[test]
fn term_advances_by_one_division() {
    let fifth = Number::from_inv(5, 3);
    let mut t = Term::init(5, &fifth);
    t.advance_to(7);
    assert_eq!(t.denom(), 7);
    let mut expected = fifth.clone();
    expected.div_assign(15625);
    assert_eq!(t.val().limbs(), expected.limbs());
    // the same power in two jumps
    let mut u = Term::init(5, &fifth);
    u.advance_to(3);
    u.advance_to(7);
    assert_eq!(u.val().limbs(), t.val().limbs());
    // and no jump at all
    u.advance_to(7);
    assert_eq!(u.denom(), 7);
    assert_eq!(u.val().limbs(), t.val().limbs());
}

#[test]
fn term_copy_takes_base_exponent_and_value() {
    let mut t = Term::init(5, &Number::from_inv(5, 2));
    let mut u = Term::init(239, &Number::from_inv(239, 2));
    u.advance_to(5);
    t.copy_from(&u);
    assert_eq!(t.base(), 239);
    assert_eq!(t.denom(), 5);
    assert_eq!(t.val().limbs(), u.val().limbs());
}

#[test]
fn reference_hands_out_odd_exponents_with_alternating_signs() {
    let fifth = Number::from_inv(5, 4);
    let mut r = Reference::new(5, &fifth);
    assert!(!r.is_spent());
    assert!(r.is_negative());
    let mut sign = true;
    let mut k = 1u64;
    let mut power: u128 = 1;
    for _ in 0..12 {
        let (neg, divisor) = r.next();
        k += 2;
        power *= 25;
        assert_eq!(neg, sign);
        sign = !sign;
        // the divisor cuts 1 / (k 5^k) from the reference term as it is now
        let mut cut = Number::zero(4);
        cut.set_to_div(r.term().val(), divisor);
        let mut expected = fifth.clone();
        let mut rest = power;
        while rest > 1 {
            expected.div_assign(25);
            rest /= 25;
        }
        expected.div_assign(k);
        assert_eq!(cut.limbs(), expected.limbs());
    }
}

#[test]
fn reference_keeps_still_while_the_divisor_fits() {
    let mut r = Reference::new(5, &Number::from_inv(5, 4));
    let (_, d3) = r.next();
    let (_, d5) = r.next();
    assert_eq!(d3, 3 * 25);
    assert_eq!(d5, 5 * 625);
    assert_eq!(r.term().denom(), 1);
}

#[test]
fn reference_moves_when_the_divisor_would_not_fit() {
    // 239^2 = 57121; 57121^4 fits in 64 bits, 9 * 57121^4 does not.
    let mut r = Reference::new(239, &Number::from_inv(239, 4));
    let (_, d3) = r.next();
    let (_, d5) = r.next();
    let (_, d7) = r.next();
    assert_eq!(d3, 3 * 57121);
    assert_eq!(d5, 5 * 57121 * 57121);
    assert_eq!(d7, 7 * 57121 * 57121 * 57121);
    assert_eq!(r.term().denom(), 1);
    let (neg, d9) = r.next();
    assert!(!neg);
    assert_eq!(d9, 9);
    assert_eq!(r.term().denom(), 9);
    let mut expected = Number::from_inv(239, 4);
    expected.div_assign(10645920227784266881);
    assert_eq!(r.term().val().limbs(), expected.limbs());
    let (_, d11) = r.next();
    assert_eq!(d11, 11 * 57121);
}

#[test]
fn reference_moves_in_two_divisions_when_the_step_itself_overflows() {
    // x = 300: 90000^3 fits in 64 bits, 90000^4 does not.
    let mut r = Reference::new(300, &Number::from_inv(300, 4));
    for _ in 0..3 {
        r.next();
    }
    assert_eq!(r.term().denom(), 1);
    let (_, d9) = r.next();
    assert_eq!(d9, 9);
    assert_eq!(r.term().denom(), 9);
    let mut expected = Number::from_inv(300, 4);
    for _ in 0..4 {
        expected.div_assign(90000);
    }
    assert_eq!(r.term().val().limbs(), expected.limbs());
}

#[test]
fn reference_of_the_largest_base_moves_at_once() {
    let x = u32::MAX as u64;
    let mut r = Reference::new(x, &Number::from_inv(x, 3));
    let (neg, d3) = r.next();
    assert!(neg);
    assert_eq!(d3, 3);
    assert_eq!(r.term().denom(), 3);
}

#[test]
fn reference_is_spent_when_the_power_underflows() {
    let mut r = Reference::new(5, &Number::from_inv(5, 1));
    let mut turns = 0;
    while !r.is_spent() {
        r.next();
        turns += 1;
        assert!(turns < 100);
    }
    assert!(r.term().val().is_zero());
    // 5^27 < 2^64 < 5^28: the first exponent that underflows is reached in steps
    assert!(r.term().denom() >= 28);
    let one = Reference::new(1, &Number::from_inv(1, 2));
    assert!(one.is_spent());
}

#[test]
fn term_tries_a_jump_and_stays_where_it_cannot_be_made() {
    let fifth = Number::from_inv(5, 3);
    let mut t = Term::init(5, &fifth);
    // backwards, by an odd distance, or too far for one divisor of 64 bits
    t.advance_to(3);
    assert!(!t.try_advance_to(1));
    assert!(!t.try_advance_to(4));
    assert!(!t.try_advance_to(3 + 2 * 14));
    assert_eq!(t.denom(), 3);
    let mut expected = fifth.clone();
    expected.div_assign(25);
    assert_eq!(t.val().limbs(), expected.limbs());
    // 25^13 fits in 64 bits, 25^14 does not
    assert!(t.try_advance_to(3 + 2 * 13));
    assert_eq!(t.denom(), 29);
    expected.div_assign(1490116119384765625);
    assert_eq!(t.val().limbs(), expected.limbs());
    assert!(t.try_advance_to(29));
    let mut big = Term::init(u64::MAX, &Number::from_inv(u64::MAX, 2));
    // the square of the base does not fit in 64 bits
    assert!(!big.try_advance_to(3));
    assert!(!big.try_advance_to(1));
    assert_eq!(big.denom(), 1);
}
