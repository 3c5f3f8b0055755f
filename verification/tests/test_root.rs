use imgal::statistics::kendall_tau::TauB;
use imgal::statistics::root::{integer_sqrt, scaled, TAU_SCALE};

#[test]
fn integer_sqrt_rounds_down() {
    assert_eq!(integer_sqrt(0), 0);
    assert_eq!(integer_sqrt(1), 1);
    assert_eq!(integer_sqrt(2), 1);
    assert_eq!(integer_sqrt(3), 1);
    assert_eq!(integer_sqrt(4), 2);
    assert_eq!(integer_sqrt(15), 3);
    assert_eq!(integer_sqrt(16), 4);
    assert_eq!(integer_sqrt(17), 4);
    assert_eq!(integer_sqrt(1_000_000), 1000);
    assert_eq!(integer_sqrt(999_999), 999);
    assert_eq!(integer_sqrt(u128::MAX), u64::MAX);
    assert_eq!(integer_sqrt((u64::MAX as u128) * (u64::MAX as u128)), u64::MAX);
    assert_eq!(integer_sqrt((u64::MAX as u128) * (u64::MAX as u128) - 1), u64::MAX - 1);
}

#[test]
fn scaled_gives_millionths() {
    assert_eq!(TAU_SCALE, 1_000_000);
    assert_eq!(scaled(TauB::Undefined), None);
    assert_eq!(scaled(TauB::Zero), Some(0));
    assert_eq!(scaled(TauB::Ratio { numerator: 16, untied_a: 20, untied_b: 20 }), Some(800_000));
    assert_eq!(scaled(TauB::Ratio { numerator: -16, untied_a: 20, untied_b: 20 }), Some(-800_000));
    // 16 / sqrt(36 * 42) is 0.411475...
    assert_eq!(scaled(TauB::Ratio { numerator: 16, untied_a: 36, untied_b: 42 }), Some(411_475));
    // kept at one
    assert_eq!(scaled(TauB::Ratio { numerator: 20, untied_a: 20, untied_b: 20 }), Some(1_000_000));
    assert_eq!(scaled(TauB::Ratio { numerator: -7, untied_a: 2, untied_b: 3 }), Some(-1_000_000));
    // the greatest masses that are taken
    let most: u128 = 1 << 62;
    assert_eq!(
        scaled(TauB::Ratio { numerator: 1 << 61, untied_a: most, untied_b: most }),
        Some(500_000)
    );
    assert_eq!(scaled(TauB::Ratio { numerator: 1, untied_a: most, untied_b: most }), Some(0));
    assert_eq!(scaled(TauB::Ratio { numerator: -1, untied_a: 3, untied_b: 3 }), Some(-333_333));
}
