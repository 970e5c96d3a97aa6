use picalc::atan::{ataninv, ataninv_scalar};
use picalc::batch::ataninv_batched;

const PI_FRACTION: [u64; 16] = [
    0x243f6a8885a308d3,
    0x13198a2e03707344,
    0xa4093822299f31d0,
    0x082efa98ec4e6c89,
    0x452821e638d01377,
    0xbe5466cf34e90c6c,
    0xc0ac29b7c97c50dd,
    0x3f84d5b5b5470917,
    0x9216d5d98979fb1b,
    0xd1310ba698dfb5ac,
    0x2ffd72dbd01adfb7,
    0xb8e1afed6a267e96,
    0xba7c9045f12c7f99,
    0x24a19947b3916cf7,
    0x0801f2e2858efc16,
    0x636920d871574e69,
];

#[test]
fn machin_formula_gives_pi_sequential() {
    let mut pi = ataninv_scalar(5, 64);
    let small = ataninv_scalar(239, 64);
    pi.mul4();
    pi.sub_assign(&small);
    pi.mul4();
    assert_eq!(&pi.limbs()[..16], &PI_FRACTION[..]);
}

#[test]
fn machin_formula_gives_pi_with_four_workers() {
    let mut pi = ataninv(5, 4, 64);
    let small = ataninv(239, 4, 64);
    pi.mul4();
    pi.sub_assign(&small);
    pi.mul4();
    assert_eq!(&pi.limbs()[..16], &PI_FRACTION[..]);
}

#[test]
fn machin_formula_gives_pi_in_batches() {
    let mut pi = ataninv_batched(5, 64);
    let small = ataninv_batched(239, 64);
    pi.mul4();
    pi.sub_assign(&small);
    pi.mul4();
    assert_eq!(&pi.limbs()[..16], &PI_FRACTION[..]);
}
