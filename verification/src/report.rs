//! The spending phase of a report.

use vstd::prelude::*;

verus! {

/// The phase of token spending, read from the wavelet trend.
#[derive(Debug, Clone, Copy, PartialEq, Eq, Structural)]
pub enum SpendingPhase {
    /// Spending is trending upward
    Rising,
    /// Spending is relatively flat
    Steady,
    /// Spending is trending downward
    Falling,
    /// Spending is volatile: high oscillation relative to trend
    Volatile,
}

/// The phase rule. A decomposition of no levels, or a trend of fewer than
/// two values, says nothing and reads as steady. Otherwise volatility
/// comes first, then a rising trend, then a falling one.
pub open spec fn phase_of(levels: nat, trend_len: nat, volatile: bool, rising: bool, falling: bool) -> SpendingPhase {
    if levels == 0 || trend_len < 2 {
        SpendingPhase::Steady
    } else if volatile {
        SpendingPhase::Volatile
    } else if rising {
        SpendingPhase::Rising
    } else if falling {
        SpendingPhase::Falling
    } else {
        SpendingPhase::Steady
    }
}

/// The phase rule in full: a decomposition that says nothing is steady;
/// otherwise volatility outranks any direction, a rise outranks a fall,
/// and with none of the three the spending is steady.
pub proof fn lemma_phase_priority(levels: nat, trend_len: nat, volatile: bool, rising: bool, falling: bool)
    ensures
        levels == 0 || trend_len < 2 ==> phase_of(levels, trend_len, volatile, rising, falling) == SpendingPhase::Steady,
        levels >= 1 && trend_len >= 2 && volatile ==> phase_of(levels, trend_len, volatile, rising, falling)
            == SpendingPhase::Volatile,
        levels >= 1 && trend_len >= 2 && !volatile && rising ==> phase_of(levels, trend_len, volatile, rising, falling)
            == SpendingPhase::Rising,
        levels >= 1 && trend_len >= 2 && !volatile && !rising && falling ==> phase_of(
            levels,
            trend_len,
            volatile,
            rising,
            falling,
        ) == SpendingPhase::Falling,
        levels >= 1 && trend_len >= 2 && !volatile && !rising && !falling ==> phase_of(
            levels,
            trend_len,
            volatile,
            rising,
            falling,
        ) == SpendingPhase::Steady,
{
}

/// Classifies spending from a decomposition of `levels` levels whose trend
/// has `trend_len` values. `volatile` says that the oscillation is large
/// against the trend (mean magnitude above half the trend's), `rising`
/// and `falling` that the second half of the trend is more than a tenth
/// above or below the first.
pub fn classify_phase(levels: usize, trend_len: usize, volatile: bool, rising: bool, falling: bool) -> (phase: SpendingPhase)
    ensures
        phase == phase_of(levels as nat, trend_len as nat, volatile, rising, falling),
        levels == 0 || trend_len < 2 ==> phase == SpendingPhase::Steady,
        levels >= 1 && trend_len >= 2 && volatile ==> phase == SpendingPhase::Volatile,
        levels >= 1 && trend_len >= 2 && !volatile && rising ==> phase == SpendingPhase::Rising,
        levels >= 1 && trend_len >= 2 && !volatile && !rising && falling ==> phase == SpendingPhase::Falling,
        levels >= 1 && trend_len >= 2 && !volatile && !rising && !falling ==> phase == SpendingPhase::Steady,
{
    if levels == 0 {
        return SpendingPhase::Steady;
    }
    if trend_len < 2 {
        return SpendingPhase::Steady;
    }
    if volatile {
        SpendingPhase::Volatile
    } else if rising {
        SpendingPhase::Rising
    } else if falling {
        SpendingPhase::Falling
    } else {
        SpendingPhase::Steady
    }
}

/// The zone a budget check falls into.
#[derive(Debug, Clone, Copy, PartialEq, Eq, Structural)]
pub enum BudgetZone {
    /// All clear
    Green,
    /// Warning issued: past the warning threshold
    Yellow,
    /// Hard exceeded: past the overage tolerance
    Red,
}

/// The zone of a check: exceeding wins over warning.
pub fn budget_zone(is_exceeded: bool, is_warning: bool) -> (zone: BudgetZone)
    ensures
        zone == (if is_exceeded {
            BudgetZone::Red
        } else if is_warning {
            BudgetZone::Yellow
        } else {
            BudgetZone::Green
        }),
{
    if is_exceeded {
        BudgetZone::Red
    } else if is_warning {
        BudgetZone::Yellow
    } else {
        BudgetZone::Green
    }
}

} // verus!
