use token_wavelet::power_of_two::{is_power_of_two, next_power_of_two};
use token_wavelet::wavelet::{decomposition_levels, pad_to_power_of_two};

#[test]
fn test_pad_to_power_of_two() {
    let data = vec![1.0, 2.0, 3.0];
    let padded = pad_to_power_of_two(&data);
    assert_eq!(padded.len(), 4);
    assert_eq!(padded[3], data[1]); // mirror
}

#[test]
fn pad_mirrors_without_repeating_the_last_value() {
    let data = vec![1.0, 2.0, 3.0, 4.0, 5.0];
    let padded = pad_to_power_of_two(&data);
    assert_eq!(padded, vec![1.0, 2.0, 3.0, 4.0, 5.0, 4.0, 3.0, 2.0]);
}

#[test]
fn pad_leaves_power_of_two_lengths_alone() {
    assert_eq!(pad_to_power_of_two(&[7u64]), vec![7u64]);
    assert_eq!(pad_to_power_of_two(&[1, 2, 3, 4]), vec![1, 2, 3, 4]);
    let sixteen: Vec<u32> = (0..16).collect();
    assert_eq!(pad_to_power_of_two(&sixteen), sixteen);
}

#[test]
fn pad_length_is_next_power_of_two() {
    for n in 1..70usize {
        let data: Vec<usize> = (0..n).collect();
        let padded = pad_to_power_of_two(&data);
        assert_eq!(padded.len(), n.next_power_of_two());
        assert_eq!(&padded[..n], &data[..]);
        for i in n..padded.len() {
            assert_eq!(padded[i], 2 * n - 2 - i);
        }
    }
}

#[test]
fn power_of_two_recognition() {
    assert!(!is_power_of_two(0));
    assert!(is_power_of_two(1));
    assert!(is_power_of_two(2));
    assert!(!is_power_of_two(6));
    assert!(is_power_of_two(64));
    assert!(!is_power_of_two(usize::MAX));
    assert!(is_power_of_two(usize::MAX / 2 + 1));
    for n in 0..300usize {
        assert_eq!(is_power_of_two(n), n.is_power_of_two());
    }
}

#[test]
fn next_power_of_two_rounds_up() {
    assert_eq!(next_power_of_two(0), 1);
    assert_eq!(next_power_of_two(1), 1);
    assert_eq!(next_power_of_two(3), 4);
    assert_eq!(next_power_of_two(5), 8);
    assert_eq!(next_power_of_two(16), 16);
    assert_eq!(next_power_of_two(usize::MAX / 2 + 1), usize::MAX / 2 + 1);
    for n in 0..300usize {
        assert_eq!(next_power_of_two(n), n.next_power_of_two());
    }
}

#[test]
fn decomposition_levels_are_capped_at_three() {
    assert_eq!(decomposition_levels(1), 0);
    assert_eq!(decomposition_levels(2), 1);
    assert_eq!(decomposition_levels(4), 2);
    assert_eq!(decomposition_levels(8), 3);
    assert_eq!(decomposition_levels(16), 3);
    assert_eq!(decomposition_levels(1 << 20), 3);
}
