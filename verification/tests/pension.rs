use ferex::pension::calculate_fers_pension;

// Units: service years in thousandths of a year, the high-three average in
// whole salary units, and the result in millionths of a salary unit.

#[test]
fn age_62_with_20_years_selects_the_higher_multiplier() {
    // 100000 * 20.0 * 0.011 == 22000
    let micro = calculate_fers_pension(20000, 100000, 62);
    assert_eq!(micro, 22_000_000_000);
    assert_eq!(micro as f64 / 1_000_000.0, 22000.0);
}

#[test]
fn just_under_20_years_selects_the_standard_multiplier() {
    // 100000 * 19.999 * 0.01 == 19999
    let micro = calculate_fers_pension(19999, 100000, 62);
    assert_eq!(micro, 19_999_000_000);
    assert_eq!(micro as f64 / 1_000_000.0, 19999.0);
}

#[test]
fn age_61_selects_the_standard_multiplier() {
    // 100000 * 20.0 * 0.01 == 20000
    let micro = calculate_fers_pension(20000, 100000, 61);
    assert_eq!(micro, 20_000_000_000);
    assert_eq!(micro as f64 / 1_000_000.0, 20000.0);
}

#[test]
fn well_past_both_thresholds_keeps_the_higher_multiplier() {
    // 90000 * 30.0 * 0.011 == 29700
    assert_eq!(calculate_fers_pension(30000, 90000, 70), 29_700_000_000);
}

#[test]
fn zero_inputs_give_zero_benefit() {
    assert_eq!(calculate_fers_pension(0, 0, 0), 0);
    assert_eq!(calculate_fers_pension(0, 100000, 70), 0);
    assert_eq!(calculate_fers_pension(20000, 0, 70), 0);
}
