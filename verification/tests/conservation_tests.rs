use token_wavelet::conservation::match_budgets;

fn strings(names: &[&str]) -> Vec<String> {
    names.iter().map(|s| s.to_string()).collect()
}

#[test]
fn every_period_with_a_budget_is_checked_in_order() {
    let windows = strings(&["daily", "weekly", "monthly"]);
    let periods = strings(&["daily", "weekly", "monthly"]);
    assert_eq!(match_budgets(&windows, &periods), vec![(0, 0), (1, 1), (2, 2)]);
}

#[test]
fn periods_without_a_budget_are_skipped() {
    let windows = strings(&["daily", "monthly"]);
    let periods = strings(&["hourly", "monthly", "weekly", "daily", "monthly"]);
    assert_eq!(match_budgets(&windows, &periods), vec![(1, 1), (3, 0), (4, 1)]);
    assert!(match_budgets(&Vec::new(), &periods).is_empty());
}

#[test]
fn the_first_budget_of_a_window_is_used() {
    let windows = strings(&["daily", "daily"]);
    let periods = strings(&["daily"]);
    assert_eq!(match_budgets(&windows, &periods), vec![(0, 0)]);
}
