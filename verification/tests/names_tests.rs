use token_wavelet::names::{position_of, sorted_distinct};

fn strings(names: &[&str]) -> Vec<String> {
    names.iter().map(|s| s.to_string()).collect()
}

#[test]
fn sorted_distinct_lists_each_model_once_in_order() {
    let models = strings(&["gpt-4", "mistral-3", "gpt-4", "gemini", "mistral-3"]);
    assert_eq!(sorted_distinct(&models), strings(&["gemini", "gpt-4", "mistral-3"]));
}

#[test]
fn sorted_distinct_orders_as_string_ord_does() {
    let models = strings(&["zeta", "Zeta", "éclair", "eclair", "e", "", "ü", "a-1", "a1", "a", "日本", "z"]);
    let mut expected = models.clone();
    expected.sort();
    expected.dedup();
    assert_eq!(sorted_distinct(&models), expected);
}

#[test]
fn sorted_distinct_of_nothing_is_empty() {
    assert!(sorted_distinct(&Vec::new()).is_empty());
}

#[test]
fn position_of_finds_the_first_match() {
    let models = strings(&["daily", "weekly", "daily"]);
    assert_eq!(position_of(&models, &"daily".to_string()), Some(0));
    assert_eq!(position_of(&models, &"weekly".to_string()), Some(1));
    assert_eq!(position_of(&models, &"monthly".to_string()), None);
    assert_eq!(position_of(&Vec::new(), &"daily".to_string()), None);
}
