use token_wavelet::spectral::{cooccurrence_table, hole_signals, lower_triangle_pairs, positions_by_name};

fn strings(names: &[&str]) -> Vec<String> {
    names.iter().map(|s| s.to_string()).collect()
}

#[test]
fn correlation_pairs_fill_the_lower_triangle_row_by_row() {
    assert_eq!(
        lower_triangle_pairs(3),
        vec![(0, 0), (1, 0), (1, 1), (2, 0), (2, 1), (2, 2)]
    );
    assert!(lower_triangle_pairs(0).is_empty());
    assert_eq!(lower_triangle_pairs(1), vec![(0, 0)]);
    for n in 0..20usize {
        let pairs = lower_triangle_pairs(n);
        assert_eq!(pairs.len(), n * (n + 1) / 2);
        assert!(pairs.iter().all(|&(i, j)| j <= i && i < n));
    }
}

#[test]
fn positions_are_grouped_by_model() {
    let names = strings(&["mistral-3", "gemini", "gpt-4"]);
    let models = strings(&["gpt-4", "mistral-3", "gemini", "gpt-4", "mistral-3"]);
    assert_eq!(positions_by_name(&names, &models), vec![vec![1, 4], vec![2], vec![0, 3]]);
    let missing = strings(&["llama"]);
    assert_eq!(positions_by_name(&missing, &models), vec![Vec::<usize>::new()]);
}

#[test]
fn cooccurrences_count_pairs_sharing_a_bucket() {
    let buckets = vec![0u64, 0, 0, 1, 1, 2];
    let models = strings(&["a", "b", "b", "a", "b", "a"]);
    let names = strings(&["a", "b", "c"]);
    let table = cooccurrence_table(&buckets, &models, &names);
    // bucket 0: a-b twice; bucket 1: a-b once; bucket 2: none
    assert_eq!(table[0][1], 3);
    assert_eq!(table[1][0], 3);
    // the two b's of bucket 0
    assert_eq!(table[1][1], 1);
    assert_eq!(table[0][0], 0);
    assert_eq!(table[0][2], 0);
    assert_eq!(table[2][2], 0);
    assert_eq!(table.len(), 3);
    assert!(table.iter().all(|row| row.len() == 3));
}

#[test]
fn cooccurrence_table_ignores_models_it_does_not_list() {
    let buckets = vec![5u64, 5, 5];
    let models = strings(&["x", "a", "y"]);
    let names = strings(&["a"]);
    assert_eq!(cooccurrence_table(&buckets, &models, &names), vec![vec![0]]);
    assert_eq!(
        cooccurrence_table(&buckets, &models, &Vec::new()),
        Vec::<Vec<usize>>::new()
    );
}

#[test]
fn hole_signals_follow_the_cooccurrence_thresholds() {
    assert_eq!(hole_signals(false, true, false, 2), (true, false));
    assert_eq!(hole_signals(false, true, false, 3), (false, false));
    assert_eq!(hole_signals(false, false, true, 0), (false, true));
    assert_eq!(hole_signals(false, false, true, 1), (false, false));
    assert_eq!(hole_signals(false, true, true, 0), (true, true));
    assert_eq!(hole_signals(false, false, false, 0), (false, false));
}

#[test]
fn a_model_paired_with_itself_is_no_hole() {
    assert_eq!(hole_signals(true, false, true, 0), (false, false));
    assert_eq!(hole_signals(true, true, false, 0), (false, false));
}
