use floating::{softfloat_classify, Binary16, Binary32, Binary64, FloatClass};
use num_bigint::BigUint;
use std::num::FpCategory;

fn category(class: FloatClass) -> FpCategory {
    match class {
        FloatClass::Zero => FpCategory::Zero,
        FloatClass::Subnormal => FpCategory::Subnormal,
        FloatClass::Normal => FpCategory::Normal,
        FloatClass::Infinite => FpCategory::Infinite,
        FloatClass::Nan => FpCategory::Nan,
    }
}

fn classify64(a: f64) -> FpCategory {
    category(softfloat_classify::<Binary64>(&BigUint::from(a.to_bits())))
}

#[test]
fn classify_test() {
    for a in vec![
        1.0,
        0.1,
        0.2,
        1.0 / 1.5E+308,
        1.0 / 1.0E+308,
        f64::INFINITY,
        f64::NAN,
    ] {
        let cat = a.classify();
        let soft_cat = classify64(a);
        assert_eq!(cat, soft_cat);
    }
}

#[test]
fn classify_covers_every_class_of_doubles() {
    for a in [
        0.0,
        -0.0,
        f64::MIN_POSITIVE,
        f64::MIN_POSITIVE / 2.0,
        f64::from_bits(1),
        f64::from_bits(0x000f_ffff_ffff_ffff),
        -f64::from_bits(1),
        f64::MAX,
        f64::MIN,
        f64::NEG_INFINITY,
        -f64::NAN,
        f64::from_bits(0x7ff0_0000_0000_0001),
    ] {
        assert_eq!(classify64(a), a.classify(), "{:#x}", a.to_bits());
    }
}

#[test]
fn classify_singles_like_the_host() {
    for bits in [
        0u32,
        0x8000_0000,
        1,
        0x007f_ffff,
        0x0080_0000,
        0x3f80_0000,
        0x7f7f_ffff,
        0x7f80_0000,
        0xff80_0000,
        0x7f80_0001,
        0xffc0_0000,
    ] {
        let class = softfloat_classify::<Binary32>(&BigUint::from(bits));
        assert_eq!(category(class), f32::from_bits(bits).classify(), "{:#x}", bits);
    }
}

#[test]
fn classify_halves() {
    let class = |bits: u16| softfloat_classify::<Binary16>(&BigUint::from(bits));
    assert_eq!(class(0x0000), FloatClass::Zero);
    assert_eq!(class(0x8000), FloatClass::Zero);
    assert_eq!(class(0x0001), FloatClass::Subnormal);
    assert_eq!(class(0x83ff), FloatClass::Subnormal);
    assert_eq!(class(0x0400), FloatClass::Normal);
    assert_eq!(class(0x3c00), FloatClass::Normal);
    assert_eq!(class(0x7bff), FloatClass::Normal);
    assert_eq!(class(0x7c00), FloatClass::Infinite);
    assert_eq!(class(0xfc00), FloatClass::Infinite);
    assert_eq!(class(0x7c01), FloatClass::Nan);
    assert_eq!(class(0xfe00), FloatClass::Nan);
}

#[test]
fn classify_ignores_bits_above_the_width() {
    let wide = BigUint::from(0x1_7f80_0000u64);
    assert_eq!(softfloat_classify::<Binary32>(&wide), FloatClass::Infinite);
}
