use imlob::PriceScalar;

fn d(mantissa: i64, scale: u32) -> PriceScalar {
    PriceScalar::new(mantissa, scale)
}

#[test]
fn exact_sum_aligns_scales() {
    assert_eq!(d(1025, 2).checked_add(d(5125, 3)), Some(d(15375, 3)));
    assert_eq!(d(1025, 2).checked_sub(d(5125, 3)), Some(d(5125, 3)));
    // 10^6 + 10^-23 needs more than 96 bits at 23 digits.
    assert_eq!(d(1_000_000, 0).checked_add(d(1, 23)), None);
}

#[test]
fn multiplication_through_the_decimal_crate() {
    assert!(d(25, 1).checked_mul(d(4, 0)).unwrap().same_value(&d(10, 0)));
    assert!(d(-3, 0).checked_mul(d(5, 1)).unwrap().same_value(&d(-15, 1)));
}

#[test]
fn division_through_the_decimal_crate() {
    assert!(d(1, 0).checked_div(d(4, 0)).unwrap().same_value(&d(25, 2)));
    let third = d(1, 0).checked_div(d(3, 0)).unwrap();
    assert_eq!(third.scale, 28);
    assert_eq!(third.mantissa, 3333333333333333333333333333);
    assert_eq!(d(1, 0).checked_div(d(0, 0)), None);
}

#[test]
fn rounding_through_the_decimal_crate() {
    assert!(d(2345, 3).round_dp(2).same_value(&d(234, 2)));
    assert!(d(2355, 3).round_dp(2).same_value(&d(236, 2)));
    assert!(d(2349, 3).round_dp(2).same_value(&d(235, 2)));
    assert_eq!(d(15, 1).round_dp(3), d(15, 1));
}

#[test]
fn comparison_through_the_decimal_crate() {
    assert!(d(10, 1).same_value(&d(100, 2)));
    assert!(d(999, 3).lt(&d(1, 0)));
    assert!(d(-1, 0).lt(&d(0, 0)));
    assert!(d(1001, 3).gt(&d(1, 0)));
    assert_eq!(d(7, 0).min(d(3, 0)), d(3, 0));
    assert_eq!(d(7, 0).max(d(3, 0)), d(7, 0));
}

#[test]
fn whole_part() {
    assert_eq!(d(12345, 2).to_u64_or_zero(), 123);
    assert_eq!(d(-5, 1).to_u64_or_zero(), 0);
}

#[test]
fn rounding_sum_through_the_decimal_crate() {
    let million = d(1_000_000, 0);
    let tiny = d(1, 23);
    // The exact sum does not fit; the decimal crate rounds it away.
    assert!(million.add_rounded(tiny).unwrap().same_value(&million));
    assert!(million.sub_rounded(tiny).unwrap().same_value(&million));
    assert!(d(1025, 2).add_rounded(d(5125, 3)).unwrap().same_value(&d(15375, 3)));
    assert!(d(1025, 2).sub_rounded(d(5125, 3)).unwrap().same_value(&d(5125, 3)));
    // 100 - 10/3 keeps 28 significant digits.
    let third = d(10, 0).checked_div(d(3, 0)).unwrap();
    let rest = d(100, 0).sub_rounded(third).unwrap();
    assert!(rest.gt(&d(9666, 2)) && rest.lt(&d(9667, 2)));
}
