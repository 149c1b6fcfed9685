use token_wavelet::data::total_tokens;
use token_wavelet::report::{budget_zone, classify_phase, BudgetZone, SpendingPhase};

#[test]
fn degenerate_decompositions_are_steady() {
    assert_eq!(classify_phase(0, 16, true, true, false), SpendingPhase::Steady);
    assert_eq!(classify_phase(3, 1, true, true, false), SpendingPhase::Steady);
}

#[test]
fn volatility_comes_before_direction() {
    assert_eq!(classify_phase(1, 8, true, false, false), SpendingPhase::Volatile);
    assert_eq!(classify_phase(1, 5, true, true, false), SpendingPhase::Volatile);
    assert_eq!(classify_phase(1, 5, false, true, false), SpendingPhase::Rising);
    assert_eq!(classify_phase(2, 5, false, false, true), SpendingPhase::Falling);
    assert_eq!(classify_phase(2, 5, false, false, false), SpendingPhase::Steady);
}

#[test]
fn exceeding_outranks_warning() {
    assert_eq!(budget_zone(true, true), BudgetZone::Red);
    assert_eq!(budget_zone(true, false), BudgetZone::Red);
    assert_eq!(budget_zone(false, true), BudgetZone::Yellow);
    assert_eq!(budget_zone(false, false), BudgetZone::Green);
}

#[test]
fn total_tokens_adds_both_directions() {
    assert_eq!(total_tokens(1000, 2000), 3000);
    assert_eq!(total_tokens(0, 0), 0);
    assert_eq!(total_tokens(u64::MAX - 5, 5), u64::MAX);
}
