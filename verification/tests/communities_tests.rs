use token_wavelet::communities::group_communities;

fn strings(names: &[&str]) -> Vec<String> {
    names.iter().map(|s| s.to_string()).collect()
}

fn link(a: &str, b: &str) -> (String, String) {
    (a.to_string(), b.to_string())
}

#[test]
fn linked_pairs_form_communities() {
    let models = strings(&["a", "b", "c", "d"]);
    let links = vec![link("a", "b"), link("c", "d")];
    let communities = group_communities(&models, &links);
    assert_eq!(communities, vec![strings(&["a", "b"]), strings(&["c", "d"])]);
}

#[test]
fn chains_of_links_join_one_community() {
    let models = strings(&["mistral-3", "gemini", "gpt-4", "llama"]);
    let links = vec![link("llama", "gemini"), link("gpt-4", "mistral-3"), link("gemini", "mistral-3")];
    let communities = group_communities(&models, &links);
    assert_eq!(communities, vec![strings(&["mistral-3", "gemini", "gpt-4", "llama"])]);
}

#[test]
fn unlinked_models_form_no_community() {
    let models = strings(&["a", "b", "c"]);
    assert!(group_communities(&models, &Vec::new()).is_empty());
    let links = vec![link("b", "b")];
    assert!(group_communities(&models, &links).is_empty());
}

#[test]
fn communities_come_in_order_of_their_first_model() {
    let models = strings(&["a", "b", "c", "d", "e"]);
    let links = vec![link("e", "b"), link("c", "a")];
    let communities = group_communities(&models, &links);
    assert_eq!(communities, vec![strings(&["a", "c"]), strings(&["b", "e"])]);
}

#[test]
fn unknown_names_stand_for_the_first_model() {
    let models = strings(&["a", "b", "c"]);
    let links = vec![link("x", "c")];
    let communities = group_communities(&models, &links);
    assert_eq!(communities, vec![strings(&["a", "c"])]);
}

#[test]
fn no_models_no_communities() {
    let links = vec![link("a", "b")];
    assert!(group_communities(&Vec::new(), &links).is_empty());
}

#[test]
fn more_links_only_merge_communities() {
    let models = strings(&["a", "b", "c", "d", "e"]);
    let fewer = vec![link("a", "b"), link("d", "e")];
    let more = vec![link("a", "b"), link("d", "e"), link("b", "d")];
    let small = group_communities(&models, &fewer);
    let large = group_communities(&models, &more);
    assert_eq!(small, vec![strings(&["a", "b"]), strings(&["d", "e"])]);
    assert_eq!(large, vec![strings(&["a", "b", "d", "e"])]);
    for community in &small {
        assert!(large.iter().any(|big| community.iter().all(|m| big.contains(m))));
    }
}
