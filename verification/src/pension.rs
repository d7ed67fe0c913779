//! The pension-benefit calculation: a pure two-branch eligibility rule.
//!
//! All quantities are fixed-point integers so that the boundary cases are
//! exact: years of service are counted in thousandths of a year, the
//! multiplier in thousandths (per mille), and the resulting annual benefit in
//! millionths of the salary unit.

use vstd::prelude::*;

verus! {

/// Thousandths of a year of service at which the higher multiplier begins.
pub const ELIGIBLE_SERVICE_MILLI_YEARS: u64 = 20000;

/// Age in whole years at which the higher multiplier begins.
pub const ELIGIBLE_AGE_YEARS: u32 = 62;

/// The benefit multiplier in per mille: 11 (1.1%) for retirement at age 62 or
/// later with at least 20 years of service, otherwise 10 (1.0%).
pub open spec fn multiplier_per_mille(service_milli_years: int, age_at_retirement: int) -> int {
    if age_at_retirement >= ELIGIBLE_AGE_YEARS && service_milli_years >= ELIGIBLE_SERVICE_MILLI_YEARS {
        11
    } else {
        10
    }
}

/// The annual benefit in millionths of the salary unit:
/// `high_three * service_years * multiplier`, with service years in
/// thousandths and the multiplier in per mille.
pub open spec fn annual_benefit_micro(
    service_milli_years: int,
    high_three: int,
    age_at_retirement: int,
) -> int {
    high_three * service_milli_years * multiplier_per_mille(service_milli_years, age_at_retirement)
}

/// Whether the inputs select the higher (1.1%) multiplier.
pub fn eligible_for_higher_multiplier(service_milli_years: u64, age_at_retirement: u32) -> (r: bool)
    ensures
        r == (multiplier_per_mille(service_milli_years as int, age_at_retirement as int) == 11),
{
    age_at_retirement >= ELIGIBLE_AGE_YEARS && service_milli_years >= ELIGIBLE_SERVICE_MILLI_YEARS
}

/// Computes the annual pension benefit.
///
/// Inputs: years of service in thousandths of a year, the high-three average
/// salary in whole salary units, and the retirement age in whole years. The
/// result is the benefit in millionths of the salary unit. The rule is total
/// and deterministic: no input is rejected beyond what fits the machine
/// integers.
pub fn calculate_fers_pension(
    service_milli_years: u64,
    high_three: u64,
    age_at_retirement: u32,
) -> (r: u64)
    requires
        annual_benefit_micro(
            service_milli_years as int,
            high_three as int,
            age_at_retirement as int,
        ) <= u64::MAX,
    ensures
        r == annual_benefit_micro(
            service_milli_years as int,
            high_three as int,
            age_at_retirement as int,
        ),
{
    let multiplier: u64 = if eligible_for_higher_multiplier(service_milli_years, age_at_retirement) {
        11
    } else {
        10
    };
    proof {
        let s = service_milli_years as int;
        let h = high_three as int;
        let m = multiplier_per_mille(s, age_at_retirement as int);
        assert(h * s <= h * s * m) by (nonlinear_arith)
            requires h >= 0 && s >= 0 && m >= 10,
        ;
        assert(h * s * m == (h * s) * m) by (nonlinear_arith);
    }
    high_three * service_milli_years * multiplier
}

} // verus!
